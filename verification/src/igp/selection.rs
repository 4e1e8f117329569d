//! What holds of the routing protocol when routes are announced, selected, handed on and forgotten.

use vstd::prelude::*;
use crate::packet::{Duration, Instant, NodeId};
use crate::seq::{is_feasible, next_seq, seq_newer, seq_older, SeqMetric, SeqNo};
use super::{on_event, IgpEvent};
use super::laws::{is_sum, lemma_route_index, same_announcements};
use super::model::{
    best_route, decision_actions, destinations, dump_actions, expiry_actions, export_actions,
    hand_on_index, route_index, selected_index, surviving, IgpAction, IgpPayload, IgpView, Route,
    RouteRequest,
};

verus! {

/// There is a route to `dst`.
pub open spec fn leads_to(routes: Seq<Route>, dst: NodeId) -> bool {
    exists|i: int| 0 <= i < routes.len() && (#[trigger] routes[i]).dst == dst
}

/// Route `b` may be followed: it is reachable, and feasible against what was followed before.
pub open spec fn may_follow(state: IgpView, b: int) -> bool {
    let route = state.routes[b];
    &&& route.metric.metric != 4294967295
    &&& state.sources.contains_key(route.dst) ==> is_feasible(
        route.metric,
        state.sources[route.dst].metric,
    )
}

/// A number that is as new as the one after the followed one has been asked for and is waited for.
pub open spec fn is_waited_for(state: IgpView, dst: NodeId, now: Instant) -> bool {
    &&& state.requests.contains_key(dst)
    &&& now < state.requests[dst].expiry
    &&& !seq_newer(next_seq(state.sources[dst].metric.seq), state.requests[dst].seq)
}

/// What the protocol does about the destination `d` when it selects routes.
spec fn block(state: IgpView, d: NodeId, now: Instant) -> Seq<IgpAction> {
    match state.best(d) {
        None => Seq::empty(),
        Some(b) => decision_actions(state.decision(d, now), state.routes[b], state.params.diameter),
    }
}

/// Where there is a route to a destination there is a best one, and it is one of them.
pub proof fn lemma_best_exists(routes: Seq<Route>, dst: NodeId)
    ensures
        match best_route(routes, dst, routes.len() as int) {
            Some(b) => 0 <= b < routes.len() && routes[b].dst == dst,
            None => !leads_to(routes, dst),
        },
{
    lemma_best_among(routes, dst, routes.len() as int);
}

proof fn lemma_best_among(routes: Seq<Route>, dst: NodeId, n: int)
    requires
        0 <= n <= routes.len(),
    ensures
        match best_route(routes, dst, n) {
            Some(b) => 0 <= b < n && routes[b].dst == dst,
            None => forall|i: int| 0 <= i < n ==> (#[trigger] routes[i]).dst != dst,
        },
    decreases n,
{
    if n > 0 {
        lemma_best_among(routes, dst, n - 1);
    }
}

/// Of two routes to a destination the one with the newer sequence number is the best one, and of two
/// with the same number the one with the lower computed metric.
pub proof fn lemma_best_of_two(a: Route, b: Route)
    requires
        a.dst == b.dst,
        seq_older(a.metric.seq, b.metric.seq) || (a.metric.seq == b.metric.seq && b.computed_metric
            < a.computed_metric),
        a.metric.seq != b.metric.seq ==> !seq_older(b.metric.seq, a.metric.seq),
    ensures
        best_route(seq![a, b], a.dst, 2) == Some(1int),
        best_route(seq![b, a], a.dst, 2) == Some(0int),
{
    reveal_with_fuel(best_route, 3);
}

/// Each destination to which there is a route is listed once, and no other.
pub proof fn lemma_destinations(routes: Seq<Route>)
    ensures
        destinations(routes).no_duplicates(),
        forall|d: NodeId| #[trigger] destinations(routes).contains(d) <==> leads_to(routes, d),
    decreases routes.len(),
{
    if routes.len() > 0 {
        let rest = routes.drop_last();
        let last = routes.last().dst;
        let before = destinations(rest);
        let all = destinations(routes);
        lemma_destinations(rest);
        assert forall|d: NodeId| #[trigger] all.contains(d) <==> leads_to(routes, d) by {
            if all.contains(d) {
                if before.contains(d) {
                    let i = choose|i: int| 0 <= i < rest.len() && (#[trigger] rest[i]).dst == d;
                    assert(routes[i].dst == d);
                } else {
                    assert(routes[routes.len() - 1].dst == d);
                }
            }
            if leads_to(routes, d) {
                let i = choose|i: int| 0 <= i < routes.len() && (#[trigger] routes[i]).dst == d;
                if i < rest.len() {
                    assert(rest[i].dst == d);
                    assert(before.contains(d));
                    let k = choose|k: int| 0 <= k < before.len() && before[k] == d;
                    assert(all[k] == d);
                } else if !before.contains(last) {
                    assert(all[before.len() as int] == last);
                }
            }
        }
    }
}

/// A route to a new destination puts that one last; one to a known destination changes nothing.
pub proof fn lemma_destinations_in_order(routes: Seq<Route>, route: Route)
    ensures
        leads_to(routes, route.dst) ==> destinations(routes.push(route)) == destinations(routes),
        !leads_to(routes, route.dst) ==> destinations(routes.push(route)) == destinations(
            routes,
        ).push(route.dst),
        destinations(Seq::<Route>::empty()).len() == 0,
{
    lemma_destinations(routes);
    assert(routes.push(route).drop_last() =~= routes);
}

/// What is broadcast about a destination when routes are selected comes right after its forwarding
/// entry has been set or removed.
pub proof fn lemma_forwarding_set_first(state: IgpView, now: Instant, k: int)
    requires
        0 <= k < state.settle_actions(now).len(),
        state.settle_actions(now)[k] is Broadcast,
    ensures
        k > 0,
        subject(state.settle_actions(now)[k - 1]) == subject(state.settle_actions(now)[k]),
        !(state.settle_actions(now)[k - 1] is Broadcast),
        state.settle_actions(now)[k - 1] is SetRoute
            <==> state.settle_actions(now)[k]->Broadcast_payload is Update,
{
    lemma_set_first(state, destinations(state.routes), now, k);
}

proof fn lemma_set_first(state: IgpView, done: Seq<NodeId>, now: Instant, k: int)
    requires
        0 <= k < state.actions_for(done, now).len(),
        state.actions_for(done, now)[k] is Broadcast,
    ensures
        k > 0,
        subject(state.actions_for(done, now)[k - 1]) == subject(state.actions_for(done, now)[k]),
        !(state.actions_for(done, now)[k - 1] is Broadcast),
        state.actions_for(done, now)[k - 1] is SetRoute <==> state.actions_for(
            done,
            now,
        )[k]->Broadcast_payload is Update,
    decreases done.len(),
{
    if done.len() > 0 {
        let before = state.actions_for(done.drop_last(), now);
        let last = block(state, done.last(), now);
        assert(state.actions_for(done, now) == before + last);
        if k < before.len() {
            lemma_set_first(state, done.drop_last(), now, k);
        } else {
            assert(state.actions_for(done, now)[k] == last[k - before.len()]);
        }
    }
}

proof fn lemma_blocks(state: IgpView, done: Seq<NodeId>, now: Instant, a: IgpAction)
    ensures
        state.actions_for(done, now).contains(a) <==> exists|k: int|
            0 <= k < done.len() && #[trigger] block(state, done[k], now).contains(a),
    decreases done.len(),
{
    if done.len() > 0 {
        let rest = done.drop_last();
        let before = state.actions_for(rest, now);
        let last = block(state, done.last(), now);
        let all = state.actions_for(done, now);
        lemma_blocks(state, rest, now, a);
        assert(all == before + last);
        if all.contains(a) {
            let m = choose|m: int| 0 <= m < all.len() && all[m] == a;
            if m < before.len() {
                assert(before[m] == a);
                assert(before.contains(a));
                let k = choose|k: int|
                    0 <= k < rest.len() && #[trigger] block(state, rest[k], now).contains(a);
                assert(done[k] == rest[k]);
                assert(block(state, done[k], now).contains(a));
            } else {
                assert(last[m - before.len()] == a);
                assert(block(state, done[done.len() - 1], now).contains(a));
            }
        }
        if exists|k: int| 0 <= k < done.len() && #[trigger] block(state, done[k], now).contains(a) {
            let k = choose|k: int|
                0 <= k < done.len() && #[trigger] block(state, done[k], now).contains(a);
            if k < rest.len() {
                assert(rest[k] == done[k]);
                assert(block(state, rest[k], now).contains(a));
                let m = choose|m: int| 0 <= m < before.len() && before[m] == a;
                assert(all[m] == a);
            } else {
                let m = choose|m: int| 0 <= m < last.len() && last[m] == a;
                assert(all[before.len() + m] == a);
            }
        }
    }
}

/// The destination that an action is about.
pub open spec fn subject(action: IgpAction) -> Option<NodeId> {
    match action {
        IgpAction::SetRoute { dst, .. } => Some(dst),
        IgpAction::RemoveRoute { dst } => Some(dst),
        IgpAction::Broadcast { payload: IgpPayload::Update { dst, .. } } => Some(dst),
        IgpAction::Broadcast { payload: IgpPayload::SequenceRequest { dst, .. } } => Some(dst),
        _ => None,
    }
}

proof fn lemma_block_members(state: IgpView, d: NodeId, now: Instant, a: IgpAction)
    ensures
        block(state, d, now).contains(a) ==> subject(a) == Some(d) && leads_to(state.routes, d),
        state.best(d) matches Some(b) ==> {
            let route = state.routes[b];
            let followed = state.sources.contains_key(d);
            &&& forall|h: NodeId|
                block(state, d, now).contains(IgpAction::SetRoute { dst: d, next_hop: h }) <==> (
                may_follow(state, b) && h == route.from)
            &&& block(state, d, now).contains(IgpAction::RemoveRoute { dst: d }) <==> !may_follow(
                state,
                b,
            )
            &&& forall|metric: SeqMetric|
                block(state, d, now).contains(
                    IgpAction::Broadcast { payload: IgpPayload::Update { metric, dst: d } },
                ) <==> (may_follow(state, b) && metric.seq == route.metric.seq && metric.metric
                    == route.computed_metric && (followed ==> {
                    let followed_metric = state.sources[d].metric.metric;
                    route.metric.metric - followed_metric > state.params.update_threshold
                        || followed_metric - route.metric.metric > state.params.update_threshold
                }))
            &&& forall|seq: SeqNo, ttl: u16|
                block(state, d, now).contains(
                    IgpAction::Broadcast {
                        payload: IgpPayload::SequenceRequest { seq, dst: d, ttl },
                    },
                ) <==> (followed && !may_follow(state, b) && !is_waited_for(state, d, now) && seq
                    == next_seq(state.sources[d].metric.seq) && ttl == state.params.diameter)
        },
{
    lemma_best_exists(state.routes, d);
    match state.best(d) {
        None => {},
        Some(b) => {
            let route = state.routes[b];
            assert(leads_to(state.routes, d));
            let all = block(state, d, now);
            if all.contains(a) {
                let m = choose|m: int| 0 <= m < all.len() && all[m] == a;
                assert(all[m] == a);
            }
            if all.len() > 0 {
                assert(all.contains(all[0]));
            }
            if all.len() > 1 {
                assert(all.contains(all[1]));
            }
            assert(all.len() <= 2);
            assert forall|x: IgpAction| all.contains(x) implies (all.len() > 0 && x == all[0]) || (
            all.len() > 1 && x == all[1]) by {
                let m = choose|m: int| 0 <= m < all.len() && all[m] == x;
            }
        },
    }
}

/// What a selection does about a destination with the best route `b`. Where it may be followed, packets
/// go to its neighbour; otherwise they go nowhere. It is announced, with the metric as seen from here,
/// when the destination is followed for the first time or its announced metric has moved by more than
/// the threshold. Where none may be followed though one was, a number after the followed one is asked
/// for, unless it has been asked for already.
pub proof fn lemma_selection_acts(state: IgpView, now: Instant, b: int)
    requires
        0 <= b < state.routes.len(),
        state.best(state.routes[b].dst) == Some(b),
    ensures
        ({
            let route = state.routes[b];
            let d = route.dst;
            let followed = state.sources.contains_key(d);
            let actions = state.settle_actions(now);
            &&& forall|h: NodeId|
                #[trigger] actions.contains(IgpAction::SetRoute { dst: d, next_hop: h }) <==> (
                may_follow(state, b) && h == route.from)
            &&& actions.contains(IgpAction::RemoveRoute { dst: d }) <==> !may_follow(state, b)
            &&& forall|metric: SeqMetric|
                #[trigger] actions.contains(
                    IgpAction::Broadcast { payload: IgpPayload::Update { metric, dst: d } },
                ) <==> (may_follow(state, b) && metric.seq == route.metric.seq && metric.metric
                    == route.computed_metric && (followed ==> {
                    let followed_metric = state.sources[d].metric.metric;
                    route.metric.metric - followed_metric > state.params.update_threshold
                        || followed_metric - route.metric.metric > state.params.update_threshold
                }))
            &&& forall|seq: SeqNo, ttl: u16|
                #[trigger] actions.contains(
                    IgpAction::Broadcast {
                        payload: IgpPayload::SequenceRequest { seq, dst: d, ttl },
                    },
                ) <==> (followed && !may_follow(state, b) && !is_waited_for(state, d, now) && seq
                    == next_seq(state.sources[d].metric.seq) && ttl == state.params.diameter)
        }),
{
    let d = state.routes[b].dst;
    let actions = state.settle_actions(now);
    assert forall|a: IgpAction| subject(a) == Some(d) implies (#[trigger] actions.contains(a) <==> block(
        state,
        d,
        now,
    ).contains(a)) by {
        lemma_acts_by_destination(state, d, now, a);
    }
    lemma_block_members(state, d, now, IgpAction::Stop);
}

proof fn lemma_acts_by_destination(state: IgpView, d: NodeId, now: Instant, a: IgpAction)
    requires
        subject(a) == Some(d),
        leads_to(state.routes, d) || state.best(d) is Some,
    ensures
        state.settle_actions(now).contains(a) <==> block(state, d, now).contains(a),
{
    let all = destinations(state.routes);
    lemma_destinations(state.routes);
    lemma_best_exists(state.routes, d);
    lemma_blocks(state, all, now, a);
    if state.settle_actions(now).contains(a) {
        let k = choose|k: int| 0 <= k < all.len() && #[trigger] block(state, all[k], now).contains(a);
        lemma_block_members(state, all[k], now, a);
    }
    if block(state, d, now).contains(a) {
        if let Some(b) = state.best(d) {
            assert(state.routes[b].dst == d);
        }
        assert(all.contains(d));
        let k = choose|k: int| 0 <= k < all.len() && all[k] == d;
        assert(block(state, all[k], now).contains(a));
    }
}

/// A selection acts on destinations to which there is a route, and on nothing else.
pub proof fn lemma_selection_acts_on_destinations(state: IgpView, now: Instant, k: int)
    requires
        0 <= k < state.settle_actions(now).len(),
    ensures
        subject(state.settle_actions(now)[k]) matches Some(d) && leads_to(state.routes, d),
{
    let all = destinations(state.routes);
    let a = state.settle_actions(now)[k];
    assert(state.settle_actions(now).contains(a));
    lemma_blocks(state, all, now, a);
    let j = choose|j: int| 0 <= j < all.len() && #[trigger] block(state, all[j], now).contains(a);
    lemma_block_members(state, all[j], now, a);
}

/// After a selection a route is selected if and only if it is the best one to a destination that was
/// followed before, and may be followed. The metric followed is then that of the best route, until the
/// time that it is kept for has passed; where no route may be followed it stays what it was.
pub proof fn lemma_selection_follows_best(state: IgpView, now: Instant, b: int)
    requires
        0 <= b < state.routes.len(),
        state.best(state.routes[b].dst) == Some(b),
        state.clock_fits(now),
    ensures
        ({
            let route = state.routes[b];
            let d = route.dst;
            let followed = state.sources.contains_key(d);
            let after = state.settled(now);
            &&& after.routes.len() == state.routes.len()
            &&& forall|i: int|
                0 <= i < state.routes.len() && (#[trigger] state.routes[i]).dst == d ==> (
                after.routes[i].selected <==> i == b && followed && may_follow(state, b))
            &&& may_follow(state, b) ==> after.sources.contains_key(d) && after.sources[d].metric
                == route.metric && after.sources[d].expiry == now + state.params.source_timeout
            &&& !may_follow(state, b) ==> (after.sources.contains_key(d) <==> followed)
            &&& !may_follow(state, b) && followed ==> after.sources[d] == state.sources[d]
            &&& if followed && !may_follow(state, b) && !is_waited_for(state, d, now) {
                after.requests.contains_key(d) && after.requests[d].seq == next_seq(
                    state.sources[d].metric.seq,
                ) && after.requests[d].expiry == now + state.params.seqno_request_timeout
            } else {
                (after.requests.contains_key(d) <==> state.requests.contains_key(d)) && (
                state.requests.contains_key(d) ==> after.requests[d] == state.requests[d])
            }
        }),
{
    let d = state.routes[b].dst;
    lemma_destinations(state.routes);
    assert(leads_to(state.routes, d));
    assert(destinations(state.routes).contains(d));
}

/// A selection changes nothing about the routes but which are selected, and nothing about destinations
/// to which there is no route; links and limits stay as they are.
pub proof fn lemma_selection_keeps_the_rest(state: IgpView, now: Instant, d: NodeId)
    requires
        !leads_to(state.routes, d),
    ensures
        same_announcements(state.settled(now).routes, state.routes),
        forall|i: int|
            0 <= i < state.routes.len() ==> (#[trigger] state.settled(
                now,
            ).routes[i]).computed_metric == state.routes[i].computed_metric,
        state.settled(now).costs == state.costs,
        state.settled(now).params == state.params,
        state.settled(now).id == state.id,
        state.settled(now).sources.contains_key(d) <==> state.sources.contains_key(d),
        state.sources.contains_key(d) ==> state.settled(now).sources[d] == state.sources[d],
        state.settled(now).requests.contains_key(d) <==> state.requests.contains_key(d),
        state.requests.contains_key(d) ==> state.settled(now).requests[d] == state.requests[d],
{
    lemma_destinations(state.routes);
    assert(!destinations(state.routes).contains(d));
}

/// An announcement is heeded unless it is about this node itself. A new route has to be reachable and
/// feasible; a known one has to lead to a destination that is followed and, while it is selected, to
/// stay feasible.
pub open spec fn is_heeded(state: IgpView, src: NodeId, metric: SeqMetric, dst: NodeId) -> bool {
    let followed = state.sources.contains_key(dst);
    let feasible = is_feasible(metric, state.sources[dst].metric);
    &&& dst != state.id
    &&& if exists|i: int|
        0 <= i < state.routes.len() && (#[trigger] state.routes[i]).dst == dst
            && state.routes[i].from == src {
        followed && (feasible || forall|i: int|
            0 <= i < state.routes.len() && (#[trigger] state.routes[i]).dst == dst
                && state.routes[i].from == src ==> !state.routes[i].selected)
    } else {
        metric.metric != 4294967295 && (followed ==> feasible)
    }
}

/// An announcement that is not heeded changes nothing and causes nothing.
pub proof fn lemma_unheeded_update(
    state: IgpView,
    src: NodeId,
    metric: SeqMetric,
    dst: NodeId,
    now: Instant,
)
    requires
        state.inv(),
        !is_heeded(state, src, metric, dst),
    ensures
        state.on_packet(src, IgpPayload::Update { metric, dst }, now).0 == state,
        state.on_packet(src, IgpPayload::Update { metric, dst }, now).1.len() == 0,
{
    lemma_route_index(state.routes, dst, src, state.routes.len() as int);
}

/// The route that a heeded announcement leaves: its computed metric is the announced one plus the cost
/// of the link, or nearly unreachable where that is not known. A retraction keeps the number and the
/// deadline of the route. All other routes stay, and so do the links.
pub proof fn lemma_heeded_update(
    state: IgpView,
    src: NodeId,
    metric: SeqMetric,
    dst: NodeId,
    now: Instant,
)
    requires
        state.inv(),
        state.clock_fits(now),
        is_heeded(state, src, metric, dst),
    ensures
        ({
            let after = state.on_packet(src, IgpPayload::Update { metric, dst }, now).0;
            let known = route_index(state.routes, dst, src, state.routes.len() as int);
            let i = match known {
                Some(i) => i,
                None => state.routes.len() as int,
            };
            let route = after.routes[i];
            &&& after.costs == state.costs
            &&& after.id == state.id
            &&& after.params == state.params
            &&& known is Some ==> after.routes.len() == state.routes.len()
            &&& known is None ==> after.routes.len() == state.routes.len() + 1
            &&& 0 <= i < after.routes.len()
            &&& route.dst == dst && route.from == src
            &&& metric.metric != 4294967295 ==> route.metric == metric && route.timeout == now
                + state.params.route_timeout
            &&& metric.metric == 4294967295 ==> route.metric.metric == 4294967295
                && route.computed_metric == 4294967295 && known is Some && route.metric.seq
                == state.routes[i].metric.seq && route.timeout == state.routes[i].timeout
            &&& metric.metric != 4294967295 ==> if state.costs.contains_key(src) {
                is_sum(route.computed_metric, metric.metric, state.costs[src].cost)
            } else {
                route.computed_metric == 4294967294
            }
            &&& forall|j: int|
                0 <= j < state.routes.len() && j != i ==> (#[trigger] after.routes[j]).metric
                    == state.routes[j].metric && after.routes[j].dst == state.routes[j].dst
                    && after.routes[j].from == state.routes[j].from && after.routes[j].timeout
                    == state.routes[j].timeout && after.routes[j].computed_metric
                    == state.routes[j].computed_metric
        }),
{
    lemma_route_index(state.routes, dst, src, state.routes.len() as int);
}

/// Where a heeded announcement brings the sequence number that was waited for, or a newer one, the wait
/// is over and the route is announced before anything else. Otherwise the request stays and what is
/// done is what a selection of routes does.
pub proof fn lemma_awaited_update(
    state: IgpView,
    src: NodeId,
    metric: SeqMetric,
    dst: NodeId,
    now: Instant,
)
    requires
        state.inv(),
        state.clock_fits(now),
        is_heeded(state, src, metric, dst),
    ensures
        ({
            let answered = state.requests.contains_key(dst) && !seq_older(
                metric.seq,
                state.requests[dst].seq,
            );
            let (after, actions) = state.on_packet(src, IgpPayload::Update { metric, dst }, now);
            let known = route_index(state.routes, dst, src, state.routes.len() as int);
            let i = match known {
                Some(i) => i,
                None => state.routes.len() as int,
            };
            let taken = IgpView {
                routes: state.routes_after_update(src, metric, dst, now)->0,
                requests: if answered {
                    state.requests.remove(dst)
                } else {
                    state.requests
                },
                ..state
            };
            &&& same_announcements(after.routes, taken.routes)
            &&& after == taken.settled(now)
            &&& answered ==> actions.len() > 0 && actions[0] == (IgpAction::Broadcast {
                payload: IgpPayload::Update {
                    metric: SeqMetric {
                        seq: after.routes[i].metric.seq,
                        metric: after.routes[i].computed_metric,
                    },
                    dst,
                },
            }) && actions.skip(1) == taken.settle_actions(now)
            &&& !answered ==> actions == taken.settle_actions(now)
        }),
{
    lemma_route_index(state.routes, dst, src, state.routes.len() as int);
    let taken = state.routes_after_update(src, metric, dst, now)->0;
    lemma_route_index(taken, dst, src, taken.len() as int);
    let actions = state.on_packet(src, IgpPayload::Update { metric, dst }, now).1;
    let answered = state.requests.contains_key(dst) && !seq_older(
        metric.seq,
        state.requests[dst].seq,
    );
    let known = route_index(state.routes, dst, src, state.routes.len() as int);
    let i = match known {
        Some(i) => i,
        None => state.routes.len() as int,
    };
    assert(taken[i].dst == dst && taken[i].from == src);
    let found = route_index(taken, dst, src, taken.len() as int)->0;
    if found != i {
        if found < state.routes.len() {
            assert(state.routes[found].dst == dst && state.routes[found].from == src);
        }
    }
    let view = IgpView {
        routes: taken,
        requests: if answered {
            state.requests.remove(dst)
        } else {
            state.requests
        },
        ..state
    };
    if answered {
        assert(actions.skip(1) =~= view.settle_actions(now));
    } else {
        assert(actions =~= view.settle_actions(now));
    }
}

/// A request for a route is answered to all neighbours: with the selected route to the destination if
/// there is one, and with a retraction otherwise. Nothing changes.
pub proof fn lemma_route_request_answered(state: IgpView, src: NodeId, dst: NodeId, now: Instant)
    ensures
        ({
            let (after, actions) = state.on_packet(src, IgpPayload::RouteRequest { dst }, now);
            &&& after == state
            &&& actions.len() == 1
            &&& actions[0] matches IgpAction::Broadcast {
                payload: IgpPayload::Update { metric, dst: told },
            } && told == dst && ((metric.seq.0 == 0 && metric.metric == 4294967295 && forall|i: int|
                0 <= i < state.routes.len() && (#[trigger] state.routes[i]).dst == dst
                    ==> !state.routes[i].selected) || exists|i: int|
                0 <= i < state.routes.len() && (#[trigger] state.routes[i]).dst == dst
                    && state.routes[i].selected && metric.seq == state.routes[i].metric.seq
                    && metric.metric == state.routes[i].computed_metric)
        }),
{
    lemma_selected_found(state.routes, dst, state.routes.len() as int);
}

pub(crate) proof fn lemma_selected_found(routes: Seq<Route>, dst: NodeId, n: int)
    requires
        0 <= n <= routes.len(),
    ensures
        match selected_index(routes, dst, n) {
            Some(i) => 0 <= i < n && routes[i].dst == dst && routes[i].selected,
            None => forall|i: int|
                0 <= i < n ==> (#[trigger] routes[i]).dst != dst || !routes[i].selected,
        },
    decreases n,
{
    if n > 0 {
        lemma_selected_found(routes, dst, n - 1);
    }
}

/// A request for a newer number, where the destination is followed over the reachable route `i`. A node
/// whose route is new enough announces it. The destination itself counts on by one and announces that.
/// Any other node remembers the request and hands it on with a smaller lifetime, if it has one left and
/// is not waiting for such a number already.
pub proof fn lemma_sequence_request_served(
    state: IgpView,
    src: NodeId,
    seq: SeqNo,
    dst: NodeId,
    ttl: u16,
    now: Instant,
    i: int,
)
    requires
        state.inv(),
        state.clock_fits(now),
        0 <= i < state.routes.len(),
        state.routes[i].dst == dst,
        state.routes[i].selected,
    ensures
        ({
            let route = state.routes[i];
            let (after, actions) = state.on_packet(
                src,
                IgpPayload::SequenceRequest { seq, dst, ttl },
                now,
            );
            if !seq_newer(seq, route.metric.seq) {
                &&& after == state
                &&& actions == seq![
                    IgpAction::Broadcast {
                        payload: IgpPayload::Update {
                            metric: SeqMetric {
                                seq: route.metric.seq,
                                metric: route.computed_metric,
                            },
                            dst,
                        },
                    },
                ]
            } else if dst == state.id {
                &&& after.routes[i].metric.seq == next_seq(route.metric.seq)
                &&& after == (IgpView { routes: state.routes.update(i, after.routes[i]), ..state })
                &&& after.routes[i] == (Route {
                    metric: SeqMetric {
                        seq: next_seq(route.metric.seq),
                        metric: route.metric.metric,
                    },
                    ..route
                })
                &&& actions == seq![
                    IgpAction::Broadcast {
                        payload: IgpPayload::Update {
                            metric: SeqMetric {
                                seq: next_seq(route.metric.seq),
                                metric: route.computed_metric,
                            },
                            dst,
                        },
                    },
                ]
            } else if ttl == 0 || (state.requests.contains_key(dst) && now
                < state.requests[dst].expiry && !seq_newer(seq, state.requests[dst].seq)) {
                after == state && actions.len() == 0
            } else {
                &&& after.requests.contains_key(dst)
                &&& after.requests[dst].seq == seq
                &&& after.requests[dst].expiry == now + state.params.seqno_request_timeout
                &&& after == (IgpView {
                    requests: state.requests.insert(dst, after.requests[dst]),
                    ..state
                })
                &&& actions.len() <= 1
                &&& actions.len() == 1 <==> exists|j: int|
                    0 <= j < state.routes.len() && (#[trigger] state.routes[j]).dst == dst
                        && state.routes[j].from != src
                &&& actions.len() == 1 ==> (actions[0] matches IgpAction::SendLink { link, payload }
                    && payload == (IgpPayload::SequenceRequest {
                    seq,
                    dst,
                    ttl: (ttl - 1) as u16,
                }) && is_best_way_on(state, src, dst, link))
            }
        }),
{
    let n = state.routes.len() as int;
    lemma_selected_found(state.routes, dst, n);
    let found = selected_index(state.routes, dst, n)->0;
    assert(found == i) by {
        if found < i {
            assert(state.routes[found].dst != state.routes[i].dst);
        }
        if i < found {
            assert(state.routes[i].dst != state.routes[found].dst);
        }
    }
    let bound = Some(state.sources[dst].metric);
    lemma_hand_on(state.routes, dst, src, bound, n);
    lemma_hand_on(state.routes, dst, src, None, n);
}

/// Over `link` there is a way to `dst` other than over `src`. If there is a feasible one it is feasible,
/// and of those with the same standing none was announced with a lower metric.
pub open spec fn is_best_way_on(state: IgpView, src: NodeId, dst: NodeId, link: NodeId) -> bool {
    exists|j: int|
        {
            let route = #[trigger] state.routes[j];
            let bound = state.sources[dst].metric;
            &&& 0 <= j < state.routes.len()
            &&& route.dst == dst && route.from == link && link != src
            &&& forall|k: int|
                0 <= k < state.routes.len() && (#[trigger] state.routes[k]).dst == dst
                    && state.routes[k].from != src && is_feasible(state.routes[k].metric, bound)
                    ==> is_feasible(route.metric, bound) && route.metric.metric
                    <= state.routes[k].metric.metric
            &&& !is_feasible(route.metric, bound) ==> forall|k: int|
                0 <= k < state.routes.len() && (#[trigger] state.routes[k]).dst == dst
                    && state.routes[k].from != src ==> route.metric.metric
                    <= state.routes[k].metric.metric
        }
}

pub(crate) proof fn lemma_hand_on(
    routes: Seq<Route>,
    dst: NodeId,
    src: NodeId,
    bound: Option<SeqMetric>,
    n: int,
)
    requires
        0 <= n <= routes.len(),
    ensures
        match hand_on_index(routes, dst, src, bound, n) {
            Some(j) => {
                &&& 0 <= j < n
                &&& routes[j].dst == dst && routes[j].from != src
                &&& bound matches Some(b) ==> is_feasible(routes[j].metric, b)
                &&& forall|k: int|
                    0 <= k < n && (#[trigger] routes[k]).dst == dst && routes[k].from != src && (
                    bound matches Some(b) ==> is_feasible(routes[k].metric, b))
                        ==> routes[j].metric.metric <= routes[k].metric.metric
            },
            None => forall|k: int|
                0 <= k < n && (#[trigger] routes[k]).dst == dst && routes[k].from != src ==> (bound
                    matches Some(b) && !is_feasible(routes[k].metric, b)),
        },
    decreases n,
{
    if n > 0 {
        lemma_hand_on(routes, dst, src, bound, n - 1);
    }
}

/// Without a selected route to the destination a request for a newer number is dropped.
pub proof fn lemma_sequence_request_dropped(
    state: IgpView,
    src: NodeId,
    seq: SeqNo,
    dst: NodeId,
    ttl: u16,
    now: Instant,
)
    requires
        forall|i: int|
            0 <= i < state.routes.len() && (#[trigger] state.routes[i]).dst == dst
                ==> !state.routes[i].selected,
    ensures
        state.on_packet(src, IgpPayload::SequenceRequest { seq, dst, ttl }, now).0 == state,
        state.on_packet(src, IgpPayload::SequenceRequest { seq, dst, ttl }, now).1.len() == 0,
{
    lemma_selected_found(state.routes, dst, state.routes.len() as int);
}

/// A dump is sent to the neighbour that asked for it, and one by the clock to all. First the routes are
/// selected anew, with this node itself among the destinations; then each route that is selected is
/// announced, in order and with the metric as seen from here, and no other.
pub proof fn lemma_dump_tells_selected_routes(state: IgpView, neigh: NodeId, now: Instant)
    requires
        state.inv(),
    ensures
        ({
            let (after, asked) = state.on_packet(neigh, IgpPayload::RouteDump, now);
            let (same, all) = on_event(state, IgpEvent::DumpTick, now);
            let renewed = state.with_self(now);
            let n = renewed.settle_actions(now).len() as int;
            &&& after == renewed.settled(now)
            &&& same == after
            &&& asked.len() == all.len() >= n
            &&& asked.take(n) == renewed.settle_actions(now)
            &&& all.take(n) == renewed.settle_actions(now)
            &&& forall|payload: IgpPayload| #[trigger]
                asked.skip(n).contains(IgpAction::SendLink { link: neigh, payload }) <==> is_told(
                    after.routes,
                    payload,
                )
            &&& forall|payload: IgpPayload| #[trigger]
                all.skip(n).contains(IgpAction::Broadcast { payload }) <==> is_told(
                    after.routes,
                    payload,
                )
            &&& forall|k: int|
                n <= k < asked.len() ==> ((#[trigger] asked[k]) matches IgpAction::SendLink {
                    link,
                    payload,
                } && link == neigh && all[k] == (IgpAction::Broadcast { payload }))
        }),
{
    let renewed = state.with_self(now);
    let after = renewed.settled(now);
    let before = renewed.settle_actions(now);
    let n = before.len() as int;
    let (_, asked) = state.on_packet(neigh, IgpPayload::RouteDump, now);
    let (_, all) = on_event(state, IgpEvent::DumpTick, now);
    let one = dump_actions(after.routes, Some(neigh));
    let every = dump_actions(after.routes, None);
    lemma_dump_members(after.routes, neigh);
    assert(asked.take(n) =~= before);
    assert(all.take(n) =~= before);
    assert(asked.skip(n) =~= one);
    assert(all.skip(n) =~= every);
    assert forall|k: int| n <= k < asked.len() implies ((#[trigger] asked[k])
        matches IgpAction::SendLink { link, payload } && link == neigh && all[k] == (
    IgpAction::Broadcast { payload })) by {
        assert(asked[k] == one[k - n]);
        assert(all[k] == every[k - n]);
    }
}

/// The announcement of a selected route.
pub open spec fn is_told(routes: Seq<Route>, payload: IgpPayload) -> bool {
    exists|i: int|
        0 <= i < routes.len() && (#[trigger] routes[i]).selected && payload == (
        IgpPayload::Update {
            metric: SeqMetric { seq: routes[i].metric.seq, metric: routes[i].computed_metric },
            dst: routes[i].dst,
        })
}

proof fn lemma_dump_members(routes: Seq<Route>, neigh: NodeId)
    ensures
        dump_actions(routes, Some(neigh)).len() == dump_actions(routes, None).len(),
        forall|k: int|
            0 <= k < dump_actions(routes, None).len() ==> ((#[trigger] dump_actions(
                routes,
                Some(neigh),
            )[k]) matches IgpAction::SendLink { link, payload } && link == neigh && dump_actions(
                routes,
                None,
            )[k] == (IgpAction::Broadcast { payload })),
        forall|payload: IgpPayload| #[trigger]
            dump_actions(routes, Some(neigh)).contains(IgpAction::SendLink { link: neigh, payload })
                <==> is_told(routes, payload),
        forall|payload: IgpPayload| #[trigger]
            dump_actions(routes, None).contains(IgpAction::Broadcast { payload }) <==> is_told(
                routes,
                payload,
            ),
    decreases routes.len(),
{
    if routes.len() > 0 {
        let rest = routes.drop_last();
        lemma_dump_members(rest, neigh);
        let one = dump_actions(routes, Some(neigh));
        let before_one = dump_actions(rest, Some(neigh));
        let all = dump_actions(routes, None);
        let before_all = dump_actions(rest, None);
        assert forall|payload: IgpPayload|
            is_told(routes, payload) <==> is_told(rest, payload) || (routes.last().selected && payload
                == (IgpPayload::Update {
                metric: SeqMetric {
                    seq: routes.last().metric.seq,
                    metric: routes.last().computed_metric,
                },
                dst: routes.last().dst,
            })) by {
            if is_told(rest, payload) {
                let i = choose|i: int|
                    0 <= i < rest.len() && (#[trigger] rest[i]).selected && payload == (
                    IgpPayload::Update {
                        metric: SeqMetric {
                            seq: rest[i].metric.seq,
                            metric: rest[i].computed_metric,
                        },
                        dst: rest[i].dst,
                    });
                assert(routes[i] == rest[i]);
            }
            if is_told(routes, payload) {
                let i = choose|i: int|
                    0 <= i < routes.len() && (#[trigger] routes[i]).selected && payload == (
                    IgpPayload::Update {
                        metric: SeqMetric {
                            seq: routes[i].metric.seq,
                            metric: routes[i].computed_metric,
                        },
                        dst: routes[i].dst,
                    });
                if i < rest.len() {
                    assert(rest[i] == routes[i]);
                }
            }
            if routes.last().selected {
                assert(routes[routes.len() - 1].selected);
            }
        }
        assert forall|payload: IgpPayload| #[trigger]
            one.contains(IgpAction::SendLink { link: neigh, payload }) <==> is_told(
                routes,
                payload,
            ) by {
            let a = IgpAction::SendLink { link: neigh, payload };
            lemma_pushed(before_one, one, a);
        }
        assert forall|payload: IgpPayload| #[trigger]
            all.contains(IgpAction::Broadcast { payload }) <==> is_told(routes, payload) by {
            let a = IgpAction::Broadcast { payload };
            lemma_pushed(before_all, all, a);
        }
    }
}

/// What a list holds that has grown by at most one element.
proof fn lemma_pushed(before: Seq<IgpAction>, after: Seq<IgpAction>, a: IgpAction)
    requires
        after == before || (after.len() > 0 && after == before.push(after.last())),
    ensures
        after.contains(a) <==> before.contains(a) || (after != before && after.last() == a),
{
    if before.contains(a) {
        let k = choose|k: int| 0 <= k < before.len() && before[k] == a;
        assert(after[k] == a);
    }
    if after.contains(a) {
        let k = choose|k: int| 0 <= k < after.len() && after[k] == a;
        if k < before.len() {
            assert(before[k] == a);
        }
    }
    if after != before {
        assert(after[after.len() - 1] == after.last());
    }
}

/// A dump adds this node itself as a destination with metric zero, or keeps the metric that it has, and
/// renews how long it is kept. Other routes and followed metrics stay.
pub proof fn lemma_dump_knows_itself(state: IgpView, now: Instant)
    requires
        state.inv(),
        state.clock_fits(now),
    ensures
        ({
            let renewed = state.with_self(now);
            let known = route_index(state.routes, state.id, state.id, state.routes.len() as int);
            let i = match known {
                Some(i) => i,
                None => state.routes.len() as int,
            };
            let route = renewed.routes[i];
            &&& 0 <= i < renewed.routes.len()
            &&& known is Some ==> renewed.routes.len() == state.routes.len()
            &&& known is None ==> renewed.routes.len() == state.routes.len() + 1
            &&& route.dst == state.id && route.from == state.id
            &&& route.timeout == now + state.params.route_timeout
            &&& known is None ==> route.metric.metric == 0 && route.metric.seq.0 == 0
                && route.computed_metric == 0 && route.selected
            &&& known is Some ==> route.metric == state.routes[i].metric && route.computed_metric
                == state.routes[i].computed_metric
            &&& forall|j: int|
                0 <= j < state.routes.len() && j != i ==> #[trigger] renewed.routes[j]
                    == state.routes[j]
            &&& renewed.sources.contains_key(state.id)
            &&& renewed.sources[state.id].expiry == now + state.params.source_timeout
            &&& state.sources.contains_key(state.id) ==> renewed.sources[state.id].metric
                == state.sources[state.id].metric
            &&& !state.sources.contains_key(state.id) ==> renewed.sources[state.id].metric.metric
                == 0 && renewed.sources[state.id].metric.seq.0 == 0
            &&& renewed == (IgpView {
                routes: renewed.routes,
                sources: state.sources.insert(state.id, renewed.sources[state.id]),
                ..state
            })
        }),
{
    lemma_route_index(state.routes, state.id, state.id, state.routes.len() as int);
}

/// A collection drops the followed metrics and the requests whose time has come and keeps the others;
/// then the routes are selected anew.
pub proof fn lemma_gc_forgets(state: IgpView, now: Instant)
    ensures
        ({
            let (after, actions) = on_event(state, IgpEvent::GcTick, now);
            let aged = state.aged(now);
            &&& after == aged.settled(now)
            &&& actions == expiry_actions(state.routes, now) + aged.settle_actions(now)
            &&& forall|d: NodeId| #[trigger]
                aged.sources.contains_key(d) <==> state.sources.contains_key(d)
                    && state.sources[d].expiry > now
            &&& forall|d: NodeId| #[trigger]
                aged.sources.contains_key(d) ==> aged.sources[d] == state.sources[d]
            &&& forall|d: NodeId| #[trigger]
                aged.requests.contains_key(d) <==> state.requests.contains_key(d)
                    && state.requests[d].expiry > now
            &&& forall|d: NodeId| #[trigger]
                aged.requests.contains_key(d) ==> aged.requests[d] == state.requests[d]
            &&& aged.costs == state.costs
            &&& aged.id == state.id
            &&& aged.params == state.params
        }),
{
}

/// What a collection makes of one route: while its time has not come it stays, when it comes the route
/// becomes unreachable for as long again, and then it goes.
pub open spec fn is_aged(route: Route, after: Route, now: Instant, route_timeout: Duration) -> bool {
    if route.timeout > now {
        after == route
    } else {
        &&& route.metric.metric != 4294967295
        &&& after.metric.metric == 4294967295
        &&& after.metric.seq == route.metric.seq
        &&& after.computed_metric == 4294967295
        &&& after.timeout == (now + route_timeout) as Instant
        &&& !after.selected
        &&& after.dst == route.dst && after.from == route.from
    }
}

/// A collection keeps, in order and aged, the routes whose time has not come or that become unreachable
/// now, and drops those that have been unreachable for their time. Each neighbour of a route that
/// becomes unreachable now is asked for it, and no other.
pub proof fn lemma_gc_ages_routes(state: IgpView, now: Instant, i: int)
    requires
        0 <= i < state.routes.len(),
    ensures
        ({
            let route = state.routes[i];
            let after = state.aged(now).routes;
            let timeout = state.params.route_timeout;
            let asked = expiry_actions(state.routes, now);
            &&& route.timeout > now || route.metric.metric != 4294967295 ==> exists|k: int|
                0 <= k < after.len() && is_aged(route, #[trigger] after[k], now, timeout)
            &&& route.timeout <= now && route.metric.metric != 4294967295 ==> asked.contains(
                IgpAction::SendLink {
                    link: route.from,
                    payload: IgpPayload::RouteRequest { dst: route.dst },
                },
            )
            &&& forall|k: int|
                0 <= k < after.len() ==> exists|j: int|
                    0 <= j < state.routes.len() && is_aged(
                        #[trigger] state.routes[j],
                        #[trigger] after[k],
                        now,
                        timeout,
                    )
            &&& forall|k: int|
                0 <= k < asked.len() ==> exists|j: int|
                    0 <= j < state.routes.len() && state.routes[j].timeout <= now
                        && state.routes[j].metric.metric != 4294967295 && #[trigger] asked[k] == (
                    IgpAction::SendLink {
                        link: (#[trigger] state.routes[j]).from,
                        payload: IgpPayload::RouteRequest { dst: state.routes[j].dst },
                    })
            &&& after.len() <= state.routes.len()
            &&& asked.len() <= state.routes.len()
        }),
{
    lemma_aging(state.routes, now, state.params.route_timeout);
    let route = state.routes[i];
    let after = state.aged(now).routes;
    let timeout = state.params.route_timeout;
    if route.timeout > now || route.metric.metric != 4294967295 {
        assert(stands(route, after, now, timeout));
    }
    assert forall|k: int| 0 <= k < after.len() implies exists|j: int|
        0 <= j < state.routes.len() && is_aged(
            #[trigger] state.routes[j],
            #[trigger] after[k],
            now,
            timeout,
        ) by {
        assert(comes_from(state.routes, after[k], now, timeout));
    }
    let asked = expiry_actions(state.routes, now);
    assert forall|k: int| 0 <= k < asked.len() implies exists|j: int|
        0 <= j < state.routes.len() && state.routes[j].timeout <= now
            && state.routes[j].metric.metric != 4294967295 && #[trigger] asked[k] == (
        IgpAction::SendLink {
            link: (#[trigger] state.routes[j]).from,
            payload: IgpPayload::RouteRequest { dst: state.routes[j].dst },
        }) by {
        assert(is_asked(state.routes, asked[k], now));
    }
}

/// A route has been kept, aged.
pub open spec fn stands(route: Route, after: Seq<Route>, now: Instant, timeout: Duration) -> bool {
    exists|k: int| 0 <= k < after.len() && is_aged(route, #[trigger] after[k], now, timeout)
}

/// A route is what became of one of `routes`.
pub open spec fn comes_from(routes: Seq<Route>, after: Route, now: Instant, timeout: Duration) -> bool {
    exists|j: int| 0 <= j < routes.len() && is_aged(#[trigger] routes[j], after, now, timeout)
}

/// An action asks a neighbour for a route that becomes unreachable now.
pub open spec fn is_asked(routes: Seq<Route>, a: IgpAction, now: Instant) -> bool {
    exists|j: int|
        0 <= j < routes.len() && routes[j].timeout <= now && routes[j].metric.metric != 4294967295
            && a == (IgpAction::SendLink {
            link: (#[trigger] routes[j]).from,
            payload: IgpPayload::RouteRequest { dst: routes[j].dst },
        })
}

pub(crate) proof fn lemma_aging(routes: Seq<Route>, now: Instant, timeout: Duration)
    ensures
        surviving(routes, now, timeout).len() <= routes.len(),
        expiry_actions(routes, now).len() <= routes.len(),
        forall|i: int|
            0 <= i < routes.len() && ((#[trigger] routes[i]).timeout > now
                || routes[i].metric.metric != 4294967295) ==> stands(
                routes[i],
                surviving(routes, now, timeout),
                now,
                timeout,
            ),
        forall|i: int|
            0 <= i < routes.len() && (#[trigger] routes[i]).timeout <= now
                && routes[i].metric.metric != 4294967295 ==> expiry_actions(routes, now).contains(
                IgpAction::SendLink {
                    link: routes[i].from,
                    payload: IgpPayload::RouteRequest { dst: routes[i].dst },
                },
            ),
        forall|k: int|
            0 <= k < surviving(routes, now, timeout).len() ==> comes_from(
                routes,
                #[trigger] surviving(routes, now, timeout)[k],
                now,
                timeout,
            ),
        forall|k: int|
            0 <= k < expiry_actions(routes, now).len() ==> is_asked(
                routes,
                #[trigger] expiry_actions(routes, now)[k],
                now,
            ),
    decreases routes.len(),
{
    if routes.len() > 0 {
        let rest = routes.drop_last();
        let last = routes.len() - 1;
        lemma_aging(rest, now, timeout);
        let before = surviving(rest, now, timeout);
        let all = surviving(routes, now, timeout);
        let asked_before = expiry_actions(rest, now);
        let asked = expiry_actions(routes, now);
        assert forall|i: int|
            0 <= i < routes.len() && ((#[trigger] routes[i]).timeout > now
                || routes[i].metric.metric != 4294967295) implies stands(
            routes[i],
            all,
            now,
            timeout,
        ) by {
            if i < last {
                assert(rest[i] == routes[i]);
                let k = choose|k: int|
                    0 <= k < before.len() && is_aged(rest[i], #[trigger] before[k], now, timeout);
                assert(all[k] == before[k]);
            } else {
                assert(is_aged(routes[i], all[all.len() - 1], now, timeout));
            }
        }
        assert forall|i: int|
            0 <= i < routes.len() && (#[trigger] routes[i]).timeout <= now
                && routes[i].metric.metric != 4294967295 implies asked.contains(
            IgpAction::SendLink {
                link: routes[i].from,
                payload: IgpPayload::RouteRequest { dst: routes[i].dst },
            },
        ) by {
            let a = IgpAction::SendLink {
                link: routes[i].from,
                payload: IgpPayload::RouteRequest { dst: routes[i].dst },
            };
            if i < last {
                assert(rest[i] == routes[i]);
                assert(asked_before.contains(a));
                let k = choose|k: int| 0 <= k < asked_before.len() && asked_before[k] == a;
                assert(asked[k] == a);
            } else {
                assert(asked[asked.len() - 1] == a);
            }
        }
        assert forall|k: int| 0 <= k < all.len() implies comes_from(
            routes,
            #[trigger] all[k],
            now,
            timeout,
        ) by {
            if k < before.len() {
                assert(comes_from(rest, before[k], now, timeout));
                let j = choose|j: int|
                    0 <= j < rest.len() && is_aged(#[trigger] rest[j], before[k], now, timeout);
                assert(routes[j] == rest[j]);
            } else {
                assert(is_aged(routes[last], all[k], now, timeout));
            }
        }
        assert forall|k: int| 0 <= k < asked.len() implies is_asked(
            routes,
            #[trigger] asked[k],
            now,
        ) by {
            if k < asked_before.len() {
                assert(is_asked(rest, asked_before[k], now));
                let j = choose|j: int|
                    0 <= j < rest.len() && rest[j].timeout <= now && rest[j].metric.metric
                        != 4294967295 && asked_before[k] == (IgpAction::SendLink {
                        link: (#[trigger] rest[j]).from,
                        payload: IgpPayload::RouteRequest { dst: rest[j].dst },
                    });
                assert(routes[j] == rest[j]);
            } else {
                assert(routes[last].timeout <= now);
            }
        }
    }
}

/// When a link comes up the forwarding entries of the selected routes are set anew, and of no others.
/// Nothing changes.
pub proof fn lemma_link_up_exports(
    state: IgpView,
    link: NodeId,
    now: Instant,
    dst: NodeId,
    next_hop: NodeId,
)
    ensures
        ({
            let (after, actions) = on_event(state, IgpEvent::LinkUp { link }, now);
            &&& after == state
            &&& actions.contains(IgpAction::SetRoute { dst, next_hop }) <==> exists|i: int|
                0 <= i < state.routes.len() && (#[trigger] state.routes[i]).selected
                    && state.routes[i].dst == dst && state.routes[i].from == next_hop
            &&& forall|k: int| 0 <= k < actions.len() ==> (#[trigger] actions[k]) is SetRoute
        }),
{
    lemma_exports(state.routes, dst, next_hop);
}

pub(crate) proof fn lemma_exports(routes: Seq<Route>, dst: NodeId, next_hop: NodeId)
    ensures
        export_actions(routes).contains(IgpAction::SetRoute { dst, next_hop }) <==> exists|i: int|
            0 <= i < routes.len() && (#[trigger] routes[i]).selected && routes[i].dst == dst
                && routes[i].from == next_hop,
        forall|k: int|
            0 <= k < export_actions(routes).len() ==> (#[trigger] export_actions(routes)[k]) is SetRoute,
    decreases routes.len(),
{
    if routes.len() > 0 {
        let rest = routes.drop_last();
        let last = routes.len() - 1;
        let a = IgpAction::SetRoute { dst, next_hop };
        lemma_exports(rest, dst, next_hop);
        lemma_pushed(export_actions(rest), export_actions(routes), a);
        if exists|i: int|
            0 <= i < rest.len() && (#[trigger] rest[i]).selected && rest[i].dst == dst
                && rest[i].from == next_hop {
            let i = choose|i: int|
                0 <= i < rest.len() && (#[trigger] rest[i]).selected && rest[i].dst == dst
                    && rest[i].from == next_hop;
            assert(routes[i] == rest[i]);
        }
        if exists|i: int|
            0 <= i < routes.len() && (#[trigger] routes[i]).selected && routes[i].dst == dst
                && routes[i].from == next_hop {
            let i = choose|i: int|
                0 <= i < routes.len() && (#[trigger] routes[i]).selected && routes[i].dst == dst
                    && routes[i].from == next_hop;
            if i < last {
                assert(rest[i] == routes[i]);
            }
        }
        assert(routes[last] == routes.last());
    }
}

/// Without a packet, and when the mesh is gone, the protocol ends; other events of the mesh cause
/// nothing. None of these changes anything.
pub proof fn lemma_end_of_protocol(state: IgpView, now: Instant)
    ensures
        on_event(state, IgpEvent::Packet { packet: None }, now) == (state, seq![IgpAction::Stop]),
        on_event(state, IgpEvent::Closed, now) == (state, seq![IgpAction::Stop]),
        on_event(state, IgpEvent::Other, now) == (state, Seq::<IgpAction>::empty()),
{
}

/// A packet is taken as it arrives.
pub proof fn lemma_packet_event(state: IgpView, src: NodeId, payload: IgpPayload, now: Instant)
    ensures
        on_event(state, IgpEvent::Packet { packet: Some((src, payload)) }, now) == state.on_packet(
            src,
            payload,
            now,
        ),
{
}

/// Routes age, and are exported and dumped, one by one and in order.
pub proof fn lemma_routes_one_by_one(
    a: Seq<Route>,
    b: Seq<Route>,
    now: Instant,
    timeout: Duration,
    neigh: Option<NodeId>,
)
    ensures
        surviving(a + b, now, timeout) == surviving(a, now, timeout) + surviving(b, now, timeout),
        expiry_actions(a + b, now) == expiry_actions(a, now) + expiry_actions(b, now),
        export_actions(a + b) == export_actions(a) + export_actions(b),
        dump_actions(a + b, neigh) == dump_actions(a, neigh) + dump_actions(b, neigh),
    decreases b.len(),
{
    if b.len() == 0 {
        assert(a + b =~= a);
        assert(surviving(a + b, now, timeout) =~= surviving(a, now, timeout) + surviving(
            b,
            now,
            timeout,
        ));
        assert(expiry_actions(a + b, now) =~= expiry_actions(a, now) + expiry_actions(b, now));
        assert(export_actions(a + b) =~= export_actions(a) + export_actions(b));
        assert(dump_actions(a + b, neigh) =~= dump_actions(a, neigh) + dump_actions(b, neigh));
    } else {
        let rest = b.drop_last();
        lemma_routes_one_by_one(a, rest, now, timeout, neigh);
        assert((a + b).drop_last() =~= a + rest);
        assert((a + b).last() == b.last());
        assert(surviving(a + b, now, timeout) =~= surviving(a, now, timeout) + surviving(
            b,
            now,
            timeout,
        ));
        assert(expiry_actions(a + b, now) =~= expiry_actions(a, now) + expiry_actions(b, now));
        assert(export_actions(a + b) =~= export_actions(a) + export_actions(b));
        assert(dump_actions(a + b, neigh) =~= dump_actions(a, neigh) + dump_actions(b, neigh));
    }
}

} // verus!
