//! What holds of the routing protocol as a whole.

use vstd::prelude::*;
use crate::packet::{Duration, Instant, NodeId};
use crate::seq::{
    is_feasible, next_seq, seq_distance, seq_newer, seq_older, SeqMetric, SeqNo, UNREACHABLE,
};
use crate::tables::lookup;
use super::{on_event, IgpEvent};
use super::model::{
    add_metric, averaged_cost, best_route, costs_after_hello, destinations, expired, hand_on_index,
    hello_actions, hop_cost, is_dead, route_index, selected_index, surviving, Cost, IgpAction,
    IgpPayload, IgpView, Route, RouteRequest,
};

verus! {

/// An index that [`best_route`] gives is that of a route to `dst`.
proof fn lemma_best_in_range(routes: Seq<Route>, dst: NodeId, n: int)
    requires
        n <= routes.len(),
    ensures
        best_route(routes, dst, n) matches Some(b) ==> 0 <= b < n && routes[b].dst == dst,
    decreases n,
{
    if n > 0 {
        lemma_best_in_range(routes, dst, n - 1);
    }
}

/// An index that [`route_index`] gives is that of a route to `dst` over `from`; where it gives none
/// there is no such route.
pub proof fn lemma_route_index(routes: Seq<Route>, dst: NodeId, from: NodeId, n: int)
    requires
        n <= routes.len(),
    ensures
        match route_index(routes, dst, from, n) {
            Some(i) => 0 <= i < n && routes[i].dst == dst && routes[i].from == from,
            None => forall|i: int|
                0 <= i < n ==> (#[trigger] routes[i]).dst != dst || routes[i].from != from,
        },
    decreases n,
{
    if n > 0 {
        lemma_route_index(routes, dst, from, n - 1);
    }
}

/// An index that [`selected_index`] gives is that of a selected route to `dst`.
proof fn lemma_selected_index(routes: Seq<Route>, dst: NodeId, n: int)
    requires
        n <= routes.len(),
    ensures
        match selected_index(routes, dst, n) {
            Some(i) => 0 <= i < n && routes[i].dst == dst && routes[i].selected,
            None => forall|i: int|
                0 <= i < n ==> (#[trigger] routes[i]).dst != dst || !routes[i].selected,
        },
    decreases n,
{
    if n > 0 {
        lemma_selected_index(routes, dst, n - 1);
    }
}

/// Selecting routes establishes the invariant wherever the routes are distinct and this node is no
/// destination over a neighbour.
proof fn lemma_settled_inv(state: IgpView, now: Instant)
    requires
        forall|i: int, j: int|
            0 <= i < j < state.routes.len() ==> (#[trigger] state.routes[i]).dst != (
            #[trigger] state.routes[j]).dst || state.routes[i].from != state.routes[j].from,
        forall|i: int|
            0 <= i < state.routes.len() && (#[trigger] state.routes[i]).dst == state.id
                ==> state.routes[i].from == state.id,
    ensures
        state.settled(now).inv(),
{
    let after = state.settled(now);
    assert forall|i: int|
        0 <= i < after.routes.len() && (#[trigger] after.routes[i]).selected implies
        after.routes[i].metric.metric != UNREACHABLE && after.sources.contains_key(
        after.routes[i].dst,
    ) by {
        assert(state.decision(state.routes[i].dst, now) is Select);
        assert(state.best(state.routes[i].dst) == Some(i));
    }
}

/// The route that an announcement concerns is present once it has been taken.
pub(crate) proof fn lemma_updated_route_present(
    state: IgpView,
    src: NodeId,
    metric: SeqMetric,
    dst: NodeId,
    now: Instant,
)
    ensures
        state.routes_after_update(src, metric, dst, now) matches Some(routes) ==> route_index(
            routes,
            dst,
            src,
            routes.len() as int,
        ) is Some,
{
    let n = state.routes.len() as int;
    lemma_route_index(state.routes, dst, src, n);
    match state.routes_after_update(src, metric, dst, now) {
        Some(routes) => {
            lemma_route_index(routes, dst, src, routes.len() as int);
            match route_index(state.routes, dst, src, n) {
                Some(i) => {
                    assert(routes[i].dst == dst && routes[i].from == src);
                },
                None => {
                    assert(routes[n].dst == dst && routes[n].from == src);
                },
            }
        },
        None => {},
    }
}

/// A dump keeps the invariant.
pub proof fn lemma_dump_keeps_inv(state: IgpView, now: Instant)
    requires
        state.inv(),
    ensures
        state.with_self(now).settled(now).inv(),
{
    lemma_route_index(state.routes, state.id, state.id, state.routes.len() as int);
    lemma_settled_inv(state.with_self(now), now);
}

/// Each route that survives comes, in order, from one that was there.
proof fn lemma_surviving_origin(routes: Seq<Route>, now: Instant, route_timeout: Duration)
    ensures
        surviving(routes, now, route_timeout).len() <= routes.len(),
        forall|i: int|
            0 <= i < surviving(routes, now, route_timeout).len() ==> exists|j: int|
                i <= j < routes.len() && !is_dead(routes[j], now) && #[trigger] surviving(
                    routes,
                    now,
                    route_timeout,
                )[i] == expired(#[trigger] routes[j], now, route_timeout),
        (forall|i: int, j: int|
            0 <= i < j < routes.len() ==> (#[trigger] routes[i]).dst != (#[trigger] routes[j]).dst
                || routes[i].from != routes[j].from) ==> (forall|i: int, j: int|
            0 <= i < j < surviving(routes, now, route_timeout).len() ==> (#[trigger] surviving(
                routes,
                now,
                route_timeout,
            )[i]).dst != (#[trigger] surviving(routes, now, route_timeout)[j]).dst || surviving(
                routes,
                now,
                route_timeout,
            )[i].from != surviving(routes, now, route_timeout)[j].from),
    decreases routes.len(),
{
    if routes.len() > 0 {
        let rest = routes.drop_last();
        let last = routes.len() - 1;
        lemma_surviving_origin(rest, now, route_timeout);
        let before = surviving(rest, now, route_timeout);
        let all = surviving(routes, now, route_timeout);
        assert forall|i: int| 0 <= i < all.len() implies exists|j: int|
            i <= j < routes.len() && !is_dead(routes[j], now) && #[trigger] all[i] == expired(
                #[trigger] routes[j],
                now,
                route_timeout,
            ) by {
            if i < before.len() {
                let j = choose|j: int|
                    i <= j < rest.len() && !is_dead(rest[j], now) && before[i] == expired(
                        #[trigger] rest[j],
                        now,
                        route_timeout,
                    );
                assert(routes[j] == rest[j]);
            } else {
                assert(all[i] == expired(routes[last], now, route_timeout));
            }
        }
        if forall|i: int, j: int|
            0 <= i < j < routes.len() ==> (#[trigger] routes[i]).dst != (#[trigger] routes[j]).dst
                || routes[i].from != routes[j].from {
            assert forall|i: int, j: int| 0 <= i < j < rest.len() implies (#[trigger] rest[i]).dst
                != (#[trigger] rest[j]).dst || rest[i].from != rest[j].from by {
                assert(rest[i] == routes[i] && rest[j] == routes[j]);
            }
            assert forall|i: int, j: int| 0 <= i < j < all.len() implies (#[trigger] all[i]).dst
                != (#[trigger] all[j]).dst || all[i].from != all[j].from by {
                if j < before.len() {
                    assert(all[i] == before[i] && all[j] == before[j]);
                } else {
                    assert(all[i] == before[i]);
                    let k = choose|k: int|
                        i <= k < rest.len() && !is_dead(rest[k], now) && before[i] == expired(
                            #[trigger] rest[k],
                            now,
                            route_timeout,
                        );
                    assert(rest[k] == routes[k]);
                    assert(all[j] == expired(routes[last], now, route_timeout));
                }
            }
        }
    }
}

/// A collection keeps the invariant.
pub proof fn lemma_gc_keeps_inv(state: IgpView, now: Instant)
    requires
        state.inv(),
    ensures
        state.aged(now).settled(now).inv(),
{
    let aged = state.aged(now);
    lemma_surviving_origin(state.routes, now, state.params.route_timeout);
    assert forall|i: int|
        0 <= i < aged.routes.len() && (#[trigger] aged.routes[i]).dst == aged.id implies
        aged.routes[i].from == aged.id by {
        let j = choose|j: int|
            i <= j < state.routes.len() && !is_dead(state.routes[j], now) && aged.routes[i]
                == expired(#[trigger] state.routes[j], now, state.params.route_timeout);
        assert(state.routes[j].dst == state.id);
    }
    lemma_settled_inv(aged, now);
}

/// A changed link cost keeps the invariant.
proof fn lemma_cost_keeps_inv(state: IgpView, node: NodeId, cost: u32, now: Instant)
    requires
        state.inv(),
    ensures
        state.on_cost(node, cost, now).0.inv(),
{
    let changed = state.with_link_cost(node, cost);
    assert forall|i: int, j: int| 0 <= i < j < changed.routes.len() implies (
    #[trigger] changed.routes[i]).dst != (#[trigger] changed.routes[j]).dst
        || changed.routes[i].from != changed.routes[j].from by {
        assert(state.routes[i].dst == changed.routes[i].dst);
        assert(state.routes[j].dst == changed.routes[j].dst);
    }
    assert forall|i: int|
        0 <= i < changed.routes.len() && (#[trigger] changed.routes[i]).dst == changed.id implies
        changed.routes[i].from == changed.id by {
        assert(state.routes[i].dst == state.id);
    }
    lemma_settled_inv(changed, now);
}

/// The loss of a link keeps the invariant.
pub proof fn lemma_link_down_keeps_inv(state: IgpView, node: NodeId, now: Instant)
    requires
        state.inv(),
    ensures
        state.on_link_down(node, now).0.inv(),
{
    let lost = IgpView {
        costs: if state.costs.contains_key(node) {
            state.costs.insert(
                node,
                Cost { cost: UNREACHABLE, ..state.costs[node] },
            )
        } else {
            state.costs
        },
        ..state
    };
    lemma_cost_keeps_inv(lost, node, UNREACHABLE, now);
}

/// Every packet keeps the invariant, whoever sent it and whatever it says.
pub proof fn lemma_packet_keeps_inv(
    state: IgpView,
    src: NodeId,
    payload: IgpPayload,
    now: Instant,
)
    requires
        state.inv(),
    ensures
        state.on_packet(src, payload, now).0.inv(),
{
    match payload {
        IgpPayload::Hello { seq } => {},
        IgpPayload::HelloReply { seq } => {
            if state.costs.contains_key(src) && state.costs[src].seq == seq {
                let old_cost = state.costs[src];
                let cost = averaged_cost(old_cost.cost, hop_cost(old_cost.start, now));
                let measured = IgpView {
                    costs: state.costs.insert(src, Cost { cost, ..old_cost }),
                    ..state
                };
                lemma_cost_keeps_inv(measured, src, cost, now);
            }
        },
        IgpPayload::RouteRequest { dst } => {},
        IgpPayload::RouteDump => {
            lemma_dump_keeps_inv(state, now);
        },
        IgpPayload::SequenceRequest { seq, dst, ttl } => {
            lemma_selected_index(state.routes, dst, state.routes.len() as int);
        },
        IgpPayload::Update { metric, dst } => {
            lemma_route_index(state.routes, dst, src, state.routes.len() as int);
            if dst != state.id {
                match state.routes_after_update(src, metric, dst, now) {
                    Some(routes) => {
                        let answered = state.requests.contains_key(dst) && !seq_older(
                            metric.seq,
                            state.requests[dst].seq,
                        );
                        lemma_settled_inv(
                            IgpView {
                                routes,
                                requests: if answered {
                                    state.requests.remove(dst)
                                } else {
                                    state.requests
                                },
                                ..state
                            },
                            now,
                        );
                    },
                    None => {},
                }
            }
        },
    }
}

/// A route is selected only where it is reachable and feasible against the metric followed before,
/// and its metric then becomes the one to be measured against.
pub proof fn lemma_selected_is_feasible(state: IgpView, now: Instant, i: int)
    requires
        0 <= i < state.routes.len(),
        state.settled(now).routes[i].selected,
    ensures
        state.routes[i].metric.metric != UNREACHABLE,
        state.sources.contains_key(state.routes[i].dst),
        is_feasible(state.routes[i].metric, state.sources[state.routes[i].dst].metric),
        state.settled(now).sources[state.routes[i].dst].metric == state.routes[i].metric,
{
    assert(state.decision(state.routes[i].dst, now) is Select);
    assert(state.best(state.routes[i].dst) == Some(i));
}

/// The metric followed towards a destination is only ever replaced by a feasible one: no selection
/// makes it worse under its sequence number.
pub proof fn lemma_source_only_improves(state: IgpView, now: Instant, dst: NodeId)
    requires
        state.sources.contains_key(dst),
    ensures
        state.settled(now).sources.contains_key(dst),
        state.settled(now).sources[dst].metric == state.sources[dst].metric || is_feasible(
            state.settled(now).sources[dst].metric,
            state.sources[dst].metric,
        ),
{
}

/// The sequence numbers of the routes to `dst` lie ahead of `base` by less than half of the circle, so
/// that they are ordered.
pub open spec fn seqs_ordered(routes: Seq<Route>, dst: NodeId, base: SeqNo) -> bool {
    forall|a: int|
        0 <= a < routes.len() && (#[trigger] routes[a]).dst == dst ==> seq_distance(
            base,
            routes[a].metric.seq,
        ) < 0x8000
}

/// The route that is selected has the newest sequence number of all routes to the destination, and of
/// those with that number the lowest computed metric.
pub proof fn lemma_selected_is_best(state: IgpView, now: Instant, base: SeqNo, i: int, j: int)
    requires
        0 <= i < state.routes.len(),
        0 <= j < state.routes.len(),
        state.routes[i].dst == state.routes[j].dst,
        state.settled(now).routes[i].selected,
        seqs_ordered(state.routes, state.routes[i].dst, base),
    ensures
        !seq_newer(state.routes[j].metric.seq, state.routes[i].metric.seq),
        state.routes[j].metric.seq == state.routes[i].metric.seq
            ==> state.routes[i].computed_metric <= state.routes[j].computed_metric,
{
    assert(state.best(state.routes[i].dst) == Some(i));
    lemma_best_is_best(state.routes, state.routes[i].dst, base, state.routes.len() as int, j);
}

proof fn lemma_best_is_best(routes: Seq<Route>, dst: NodeId, base: SeqNo, n: int, j: int)
    requires
        0 <= j < n <= routes.len(),
        routes[j].dst == dst,
        seqs_ordered(routes, dst, base),
    ensures
        best_route(routes, dst, n) matches Some(b) && {
            let best = seq_distance(base, routes[b].metric.seq);
            let other = seq_distance(base, routes[j].metric.seq);
            other < best || (routes[j].metric.seq == routes[b].metric.seq
                && routes[b].computed_metric <= routes[j].computed_metric)
        },
    decreases n,
{
    lemma_best_in_range(routes, dst, n - 1);
    if j < n - 1 {
        lemma_best_is_best(routes, dst, base, n - 1, j);
    }
}

/// Packets are only ever forwarded along a route that is known and reachable.
pub proof fn lemma_forwarding_follows_routes(
    state: IgpView,
    now: Instant,
    k: int,
    dst: NodeId,
    next_hop: NodeId,
)
    requires
        0 <= k < state.settle_actions(now).len(),
        state.settle_actions(now)[k] == (IgpAction::SetRoute { dst, next_hop }),
    ensures
        exists|i: int|
            0 <= i < state.routes.len() && (#[trigger] state.routes[i]).dst == dst
                && state.routes[i].from == next_hop && state.routes[i].metric.metric
                != UNREACHABLE,
{
    lemma_actions_follow_routes(state, destinations(state.routes), now, k, dst, next_hop);
}

proof fn lemma_actions_follow_routes(
    state: IgpView,
    done: Seq<NodeId>,
    now: Instant,
    k: int,
    dst: NodeId,
    next_hop: NodeId,
)
    requires
        0 <= k < state.actions_for(done, now).len(),
        state.actions_for(done, now)[k] == (IgpAction::SetRoute { dst, next_hop }),
    ensures
        exists|i: int|
            0 <= i < state.routes.len() && (#[trigger] state.routes[i]).dst == dst
                && state.routes[i].from == next_hop && state.routes[i].metric.metric
                != UNREACHABLE,
    decreases done.len(),
{
    let rest = state.actions_for(done.drop_last(), now);
    if k < rest.len() {
        lemma_actions_follow_routes(state, done.drop_last(), now, k, dst, next_hop);
    } else {
        lemma_best_in_range(state.routes, done.last(), state.routes.len() as int);
        let b = state.best(done.last())->0;
        assert(state.routes[b].dst == dst);
    }
}

/// Whatever a neighbour announces about this node itself is ignored.
pub proof fn lemma_updates_about_self_ignored(
    state: IgpView,
    src: NodeId,
    metric: SeqMetric,
    now: Instant,
)
    ensures
        state.on_packet(src, IgpPayload::Update { metric, dst: state.id }, now) == (
            state,
            Seq::<IgpAction>::empty(),
        ),
{
}

/// A reply to anything but the last hello over the link changes nothing.
pub proof fn lemma_stale_hello_reply_ignored(
    state: IgpView,
    src: NodeId,
    seq: SeqNo,
    now: Instant,
)
    requires
        lookup(state.costs, src) matches Some(cost) ==> cost.seq != seq,
    ensures
        state.on_packet(src, IgpPayload::HelloReply { seq }, now) == (
            state,
            Seq::<IgpAction>::empty(),
        ),
{
}

/// A request for a newer sequence number that is handed on goes to another neighbour than the one
/// it came from, and with a smaller lifetime: it cannot circulate for ever.
pub proof fn lemma_sequence_request_dies_out(
    state: IgpView,
    src: NodeId,
    seq: SeqNo,
    dst: NodeId,
    ttl: u16,
    now: Instant,
    k: int,
    link: NodeId,
    payload: IgpPayload,
)
    requires
        0 <= k < state.on_sequence_request(src, seq, dst, ttl, now).1.len(),
        state.on_sequence_request(src, seq, dst, ttl, now).1[k] == (IgpAction::SendLink {
            link,
            payload,
        }),
    ensures
        link != src,
        ttl > 0,
        payload == (IgpPayload::SequenceRequest { seq, dst, ttl: (ttl - 1) as u16 }),
{
    let n = state.routes.len() as int;
    lemma_hand_on_avoids_sender(state.routes, dst, src, Some(state.sources[dst].metric), n);
    lemma_hand_on_avoids_sender(state.routes, dst, src, None, n);
}

proof fn lemma_hand_on_avoids_sender(
    routes: Seq<Route>,
    dst: NodeId,
    src: NodeId,
    bound: Option<SeqMetric>,
    n: int,
)
    requires
        n <= routes.len(),
    ensures
        hand_on_index(routes, dst, src, bound, n) matches Some(i) ==> 0 <= i < n
            && routes[i].from != src,
    decreases n,
{
    if n > 0 {
        lemma_hand_on_avoids_sender(routes, dst, src, bound, n - 1);
    }
}

/// A request that has been handed on is not handed on a second time while it is pending, whoever
/// repeats it.
pub proof fn lemma_sequence_request_handed_on_once(
    state: IgpView,
    first: NodeId,
    second: NodeId,
    seq: SeqNo,
    dst: NodeId,
    ttl: u16,
    later_ttl: u16,
    now: Instant,
    later: Instant,
)
    requires
        state.on_sequence_request(first, seq, dst, ttl, now).0.requests != state.requests,
        later < now + state.params.seqno_request_timeout <= u64::MAX,
    ensures
        state.on_sequence_request(first, seq, dst, ttl, now).0.on_sequence_request(
            second,
            seq,
            dst,
            later_ttl,
            later,
        ) == (
            state.on_sequence_request(first, seq, dst, ttl, now).0,
            Seq::<IgpAction>::empty(),
        ),
{
}

/// After a collection nothing that is kept has expired.
pub proof fn lemma_gc_leaves_nothing_expired(state: IgpView, now: Instant)
    requires
        state.clock_fits(now),
        state.params.route_timeout > 0,
        state.params.source_timeout > 0,
        state.params.seqno_request_timeout > 0,
    ensures
        forall|d: NodeId| #[trigger]
            state.on_gc(now).0.sources.contains_key(d) ==> state.on_gc(now).0.sources[d].expiry
                > now,
        forall|d: NodeId| #[trigger]
            state.on_gc(now).0.requests.contains_key(d) ==> state.on_gc(now).0.requests[d].expiry
                > now,
        forall|i: int|
            0 <= i < state.on_gc(now).0.routes.len() ==> (#[trigger] state.on_gc(
                now,
            ).0.routes[i]).timeout > now,
{
    let aged = state.aged(now);
    let after = state.on_gc(now).0;
    lemma_surviving_origin(state.routes, now, state.params.route_timeout);
    assert forall|i: int| 0 <= i < after.routes.len() implies (
    #[trigger] after.routes[i]).timeout > now by {
        assert(after.routes[i].timeout == aged.routes[i].timeout);
        let j = choose|j: int|
            i <= j < state.routes.len() && !is_dead(state.routes[j], now) && aged.routes[i]
                == expired(#[trigger] state.routes[j], now, state.params.route_timeout);
    }
}

/// A further measurement moves the cost of a link towards the measurement and never past it.
pub proof fn lemma_cost_moves_towards_measurement(cost: u32, measured: int)
    requires
        cost != UNREACHABLE,
        0 <= measured < 0x1_0000_0000,
    ensures
        cost <= measured ==> cost <= averaged_cost(cost, measured) <= measured,
        cost >= measured ==> cost >= averaged_cost(cost, measured) >= measured,
{
}

/// Once a neighbour has retracted a destination no route to it over that neighbour is selected. A
/// retraction that is not feasible is ignored where the route is followed.
pub proof fn lemma_retraction_unselects(
    state: IgpView,
    src: NodeId,
    seq: SeqNo,
    dst: NodeId,
    now: Instant,
    i: int,
)
    requires
        state.inv(),
        dst != state.id,
        forall|j: int|
            0 <= j < state.routes.len() && (#[trigger] state.routes[j]).dst == dst
                && state.routes[j].from == src && state.routes[j].selected ==> is_feasible(
                SeqMetric { seq, metric: UNREACHABLE },
                state.sources[dst].metric,
            ),
        0 <= i < state.on_update(
            src,
            SeqMetric { seq, metric: UNREACHABLE },
            dst,
            now,
        ).0.routes.len(),
    ensures
        ({
            let route = state.on_update(
                src,
                SeqMetric { seq, metric: UNREACHABLE },
                dst,
                now,
            ).0.routes[i];
            route.dst == dst && route.from == src ==> !route.selected
        }),
{
    let metric = SeqMetric { seq, metric: UNREACHABLE };
    let after = state.on_update(src, metric, dst, now).0;
    lemma_route_index(state.routes, dst, src, state.routes.len() as int);
    lemma_packet_keeps_inv(state, src, IgpPayload::Update { metric, dst }, now);
    match route_index(state.routes, dst, src, state.routes.len() as int) {
        Some(j) => {
            if state.sources.contains_key(dst) {
                let routes = state.routes_after_update(src, metric, dst, now)->0;
                assert(routes[j].metric.metric == UNREACHABLE);
                assert(after.routes[j].metric.metric == UNREACHABLE);
            } else {
                assert(after.routes[j] == state.routes[j]);
            }
            assert(!after.routes[j].selected);
            if after.routes[i].dst == dst && after.routes[i].from == src && i != j {
                assert(after.routes[j].dst == dst && after.routes[j].from == src);
            }
        },
        None => {
            assert(after.routes[i] == state.routes[i]);
        },
    }
}

/// The sum of a metric and a cost, which is at most the metric of what cannot be reached.
pub open spec fn is_sum(sum: u32, metric: u32, cost: u32) -> bool {
    &&& metric + cost <= 4294967295 ==> sum == metric + cost
    &&& metric + cost > 4294967295 ==> sum == 4294967295
}

/// Two lists hold the same routes up to their computed metrics and up to which are selected.
pub open spec fn same_announcements(a: Seq<Route>, b: Seq<Route>) -> bool {
    &&& a.len() == b.len()
    &&& forall|i: int|
        0 <= i < a.len() ==> (#[trigger] a[i]).metric == b[i].metric && a[i].dst == b[i].dst
            && a[i].from == b[i].from && a[i].timeout == b[i].timeout
}

/// Adding metrics saturates.
pub proof fn lemma_metrics_add_up(metric: u32, cost: u32)
    ensures
        is_sum(add_metric(metric, cost), metric, cost),
{
}

/// The reply to the last hello measures the link: the first one is taken as it is, in milliseconds with
/// a hundred added for the hop, and a later one moves the cost by 164 parts in 1000. Nothing else that
/// is known of links changes.
pub proof fn lemma_reply_measures_link(state: IgpView, src: NodeId, seq: SeqNo, now: Instant)
    requires
        state.costs.contains_key(src),
        state.costs[src].seq == seq,
    ensures
        ({
            let before = state.costs[src];
            let after = state.on_packet(src, IgpPayload::HelloReply { seq }, now).0.costs;
            let elapsed: int = if now >= before.start {
                now - before.start
            } else {
                0
            };
            let measured = elapsed / 1_000_000 + 100;
            &&& after == state.costs.insert(src, after[src])
            &&& after[src].seq == seq
            &&& after[src].start == before.start
            &&& before.cost == 4294967295 && measured < 4294967296 ==> after[src].cost == measured
            &&& before.cost < 4294967295 && measured < 4294967296 ==> 1000 * after[src].cost <= 836
                * before.cost + 164 * measured < 1000 * after[src].cost + 1000
        }),
{
}

/// After a reply that has changed the cost of a link, the computed metric of each route over that link
/// is the announced one plus the present cost, whatever it was before; all other routes keep theirs.
/// What the neighbours announced stays as it is. Where the cost has not changed, no route does.
pub proof fn lemma_reply_recomputes_metrics(state: IgpView, src: NodeId, seq: SeqNo, now: Instant)
    requires
        state.costs.contains_key(src),
        state.costs[src].seq == seq,
    ensures
        ({
            let after = state.on_packet(src, IgpPayload::HelloReply { seq }, now).0;
            let cost = after.costs[src].cost;
            &&& same_announcements(after.routes, state.routes)
            &&& cost == state.costs[src].cost ==> after.routes == state.routes
            &&& cost != state.costs[src].cost ==> forall|i: int|
                0 <= i < state.routes.len() ==> if (#[trigger] after.routes[i]).from == src {
                    is_sum(after.routes[i].computed_metric, state.routes[i].metric.metric, cost)
                } else {
                    after.routes[i].computed_metric == state.routes[i].computed_metric
                }
        }),
{
    let after = state.on_packet(src, IgpPayload::HelloReply { seq }, now).0;
    let cost = after.costs[src].cost;
    if cost != state.costs[src].cost {
        assert forall|i: int| 0 <= i < state.routes.len() implies if (
        #[trigger] after.routes[i]).from == src {
            is_sum(after.routes[i].computed_metric, state.routes[i].metric.metric, cost)
        } else {
            after.routes[i].computed_metric == state.routes[i].computed_metric
        } by {
            if state.routes[i].from == src {
                assert(state.uses_link(src));
            }
        }
    }
}

/// Of two changes of the cost of a link only the last one shows in the computed metrics.
pub proof fn lemma_last_cost_counts(
    state: IgpView,
    node: NodeId,
    first: u32,
    second: u32,
    earlier: Instant,
    now: Instant,
    i: int,
)
    requires
        0 <= i < state.routes.len(),
    ensures
        ({
            let twice = state.on_cost(node, first, earlier).0.on_cost(node, second, now).0;
            let once = state.on_cost(node, second, now).0;
            &&& same_announcements(twice.routes, state.routes)
            &&& twice.routes[i].computed_metric == once.routes[i].computed_metric
            &&& state.routes[i].from == node ==> is_sum(
                once.routes[i].computed_metric,
                state.routes[i].metric.metric,
                second,
            )
            &&& state.routes[i].from != node ==> once.routes[i].computed_metric
                == state.routes[i].computed_metric
        }),
{
    let between = state.on_cost(node, first, earlier).0;
    if state.routes[i].from == node {
        assert(state.uses_link(node));
        assert(between.routes[i].from == node);
        assert(between.uses_link(node));
    }
    if state.uses_link(node) {
        let j = choose|j: int| 0 <= j < state.routes.len() && (#[trigger] state.routes[j]).from == node;
        assert(between.routes[j].from == node);
        assert(between.uses_link(node));
    }
}

/// When a link is lost its cost becomes that of what cannot be reached, and so do the computed metrics
/// of the routes over it; the other routes and links keep theirs.
pub proof fn lemma_lost_link_is_unreachable(state: IgpView, node: NodeId, now: Instant)
    ensures
        ({
            let after = on_event(state, IgpEvent::LinkDown { link: node }, now).0;
            &&& after.costs.dom() == state.costs.dom()
            &&& forall|n: NodeId| #[trigger]
                state.costs.contains_key(n) && n != node ==> after.costs[n] == state.costs[n]
            &&& state.costs.contains_key(node) ==> after.costs[node] == (Cost {
                cost: 4294967295,
                ..state.costs[node]
            })
            &&& same_announcements(after.routes, state.routes)
            &&& forall|i: int|
                0 <= i < state.routes.len() ==> (#[trigger] after.routes[i]).computed_metric == if
                state.routes[i].from == node {
                    4294967295
                } else {
                    state.routes[i].computed_metric
                }
        }),
{
    let after = on_event(state, IgpEvent::LinkDown { link: node }, now).0;
    assert(after.costs.dom() =~= state.costs.dom());
    assert forall|i: int| 0 <= i < state.routes.len() implies (
    #[trigger] after.routes[i]).computed_metric == if state.routes[i].from == node {
        4294967295
    } else {
        state.routes[i].computed_metric
    } by {
        if state.routes[i].from == node {
            assert(state.uses_link(node));
        }
    }
}

/// A neighbour is asked for all its routes after its first reply, before anything else is done, and
/// not after a later one.
pub proof fn lemma_first_reply_asks_for_dump(state: IgpView, src: NodeId, seq: SeqNo, now: Instant)
    requires
        state.costs.contains_key(src),
        state.costs[src].seq == seq,
    ensures
        ({
            let actions = state.on_packet(src, IgpPayload::HelloReply { seq }, now).1;
            let ask = IgpAction::SendLink { link: src, payload: IgpPayload::RouteDump };
            &&& state.costs[src].cost == 4294967295 ==> actions.len() > 0 && actions[0] == ask
            &&& forall|k: int|
                0 <= k < actions.len() && (#[trigger] actions[k]) is SendLink ==> k == 0
                    && state.costs[src].cost == 4294967295
        }),
{
    let cost = averaged_cost(state.costs[src].cost, hop_cost(state.costs[src].start, now));
    let measured = IgpView {
        costs: state.costs.insert(src, Cost { cost, ..state.costs[src] }),
        ..state
    };
    let changed = measured.with_link_cost(src, cost);
    let actions = state.on_packet(src, IgpPayload::HelloReply { seq }, now).1;
    let rest = changed.settle_actions(now);
    assert forall|k: int| 0 <= k < actions.len() && (#[trigger] actions[k]) is SendLink implies k == 0
        && state.costs[src].cost == 4294967295 by {
        let start: int = if state.costs[src].cost == 4294967295 {
            1
        } else {
            0
        };
        if k >= start {
            assert(actions[k] == rest[k - start]);
            lemma_selection_sends_nothing(changed, destinations(changed.routes), now, k - start);
        }
    }
}

/// When routes are selected nothing is sent over a single link, and the protocol does not end.
proof fn lemma_selection_sends_nothing(state: IgpView, done: Seq<NodeId>, now: Instant, k: int)
    requires
        0 <= k < state.actions_for(done, now).len(),
    ensures
        !(state.actions_for(done, now)[k] is SendLink),
        !(state.actions_for(done, now)[k] is Stop),
    decreases done.len(),
{
    let rest = state.actions_for(done.drop_last(), now);
    if k < rest.len() {
        lemma_selection_sends_nothing(state, done.drop_last(), now, k);
    }
}

/// A hello over each of some links, each once: every link counts on by one and starts anew, keeping its
/// cost; a link that was not known starts at zero and without a cost. All other links, and everything
/// else, stay as they are. Each neighbour is sent the number that its link now has.
pub proof fn lemma_hello_over_links(state: IgpView, links: Vec<NodeId>, now: Instant)
    requires
        links@.no_duplicates(),
    ensures
        ({
            let (after, actions) = on_event(state, IgpEvent::HelloTick { links }, now);
            &&& after == (IgpView { costs: after.costs, ..state })
            &&& after.costs.dom() == state.costs.dom().union(links@.to_set())
            &&& forall|n: NodeId| #[trigger]
                state.costs.contains_key(n) && !links@.contains(n) ==> after.costs[n]
                    == state.costs[n]
            &&& actions.len() == links@.len()
            &&& forall|i: int|
                0 <= i < links@.len() ==> {
                    let cost = after.costs[#[trigger] links@[i]];
                    &&& actions[i] == (IgpAction::SendLink {
                        link: links@[i],
                        payload: IgpPayload::Hello { seq: cost.seq },
                    })
                    &&& cost.start == now
                    &&& if state.costs.contains_key(links@[i]) {
                        cost.cost == state.costs[links@[i]].cost && cost.seq == next_seq(
                            state.costs[links@[i]].seq,
                        )
                    } else {
                        cost.cost == 4294967295 && cost.seq.0 == 0
                    }
                }
        }),
{
    lemma_hellos(state.costs, links@, now);
}

pub(crate) proof fn lemma_hellos(costs: Map<NodeId, Cost>, links: Seq<NodeId>, now: Instant)
    requires
        links.no_duplicates(),
    ensures
        costs_after_hello(costs, links, now).dom() == costs.dom().union(links.to_set()),
        forall|n: NodeId| #[trigger]
            costs.contains_key(n) && !links.contains(n) ==> costs_after_hello(costs, links, now)[n]
                == costs[n],
        hello_actions(costs, links, now).len() == links.len(),
        forall|i: int|
            0 <= i < links.len() ==> {
                let cost = costs_after_hello(costs, links, now)[#[trigger] links[i]];
                &&& hello_actions(costs, links, now)[i] == (IgpAction::SendLink {
                    link: links[i],
                    payload: IgpPayload::Hello { seq: cost.seq },
                })
                &&& cost.start == now
                &&& if costs.contains_key(links[i]) {
                    cost.cost == costs[links[i]].cost && cost.seq == next_seq(costs[links[i]].seq)
                } else {
                    cost.cost == 4294967295 && cost.seq.0 == 0
                }
            },
    decreases links.len(),
{
    let after = costs_after_hello(costs, links, now);
    if links.len() > 0 {
        let rest = links.drop_last();
        let last = links.last();
        let before = costs_after_hello(costs, rest, now);
        lemma_hellos(costs, rest, now);
        assert(!rest.contains(last)) by {
            if rest.contains(last) {
                let j = choose|j: int| 0 <= j < rest.len() && rest[j] == last;
                assert(links[j] == links[links.len() - 1]);
            }
        }
        assert(links =~= rest.push(last));
        assert forall|n: NodeId| links.contains(n) <==> rest.contains(n) || n == last by {
            if rest.contains(n) {
                let j = choose|j: int| 0 <= j < rest.len() && rest[j] == n;
                assert(links[j] == n);
            }
            assert(links[links.len() - 1] == last);
        }
        assert(rest.to_set().contains(last) <==> rest.contains(last));
        assert(before.contains_key(last) <==> costs.contains_key(last));
        assert forall|n: NodeId| after.dom().contains(n) <==> costs.dom().union(
            links.to_set(),
        ).contains(n) by {
            assert(rest.to_set().contains(n) <==> rest.contains(n));
            assert(links.to_set().contains(n) <==> links.contains(n));
        }
        assert(after.dom() =~= costs.dom().union(links.to_set()));
        assert forall|i: int| 0 <= i < links.len() implies {
            let cost = after[#[trigger] links[i]];
            &&& hello_actions(costs, links, now)[i] == (IgpAction::SendLink {
                link: links[i],
                payload: IgpPayload::Hello { seq: cost.seq },
            })
            &&& cost.start == now
            &&& if costs.contains_key(links[i]) {
                cost.cost == costs[links[i]].cost && cost.seq == next_seq(costs[links[i]].seq)
            } else {
                cost.cost == 4294967295 && cost.seq.0 == 0
            }
        } by {
            if i < rest.len() {
                assert(links[i] == rest[i]);
                assert(rest.contains(links[i]));
            }
        }
    } else {
        assert(after.dom() =~= costs.dom().union(links.to_set()));
    }
}

/// A hello is answered with its number, over the link it came from, and changes nothing.
pub proof fn lemma_hello_answered(state: IgpView, src: NodeId, seq: SeqNo, now: Instant)
    ensures
        state.on_packet(src, IgpPayload::Hello { seq }, now).0 == state,
        state.on_packet(src, IgpPayload::Hello { seq }, now).1.len() == 1,
        state.on_packet(src, IgpPayload::Hello { seq }, now).1[0] == (IgpAction::SendLink {
            link: src,
            payload: IgpPayload::HelloReply { seq },
        }),
{
}

/// The reply to the hello just sent over a link is the one that is waited for: it measures the link.
pub proof fn lemma_reply_to_last_hello_counts(
    state: IgpView,
    links: Vec<NodeId>,
    i: int,
    now: Instant,
    later: Instant,
)
    requires
        links@.no_duplicates(),
        0 <= i < links@.len(),
        now <= later,
        (later - now) / 1_000_000 + 100 < 4294967296,
        !state.costs.contains_key(links@[i]),
    ensures
        ({
            let (sent, actions) = on_event(state, IgpEvent::HelloTick { links }, now);
            let seq = actions[i]->SendLink_payload->Hello_seq;
            let after = sent.on_packet(links@[i], IgpPayload::HelloReply { seq }, later).0;
            after.costs[links@[i]].cost == (later - now) / 1_000_000 + 100
        }),
{
    lemma_hello_over_links(state, links, now);
    let (sent, actions) = on_event(state, IgpEvent::HelloTick { links }, now);
    assert(links@.contains(links@[i]));
    assert(links@.to_set().contains(links@[i]));
    assert(sent.costs.contains_key(links@[i]));
    lemma_reply_measures_link(sent, links@[i], sent.costs[links@[i]].seq, later);
}

} // verus!
