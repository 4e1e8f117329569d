//! What holds of the lean form of the routing protocol.

use vstd::prelude::*;
use crate::mesh::LinkError;
use crate::packet::{Instant, NodeId};
use crate::seq::{is_feasible, next_seq, seq_newer, seq_older, SeqMetric, SeqNo};
use super::IgpEvent;
use super::laws::{is_sum, lemma_hellos, lemma_route_index, same_announcements};
use super::model::{destinations, expiry_actions, route_index, IgpAction, IgpPayload, Route};
use super::selection::{
    comes_from, is_aged, is_asked, leads_to, lemma_aging, lemma_best_exists, lemma_exports,
    lemma_hand_on, lemma_selected_found, stands, subject,
};
use super::state::{lean_actions, relay_actions, StateView};

verus! {

/// Route `b` may be followed: it is reachable, and feasible against what was followed before.
pub open spec fn may_follow(state: StateView, b: int) -> bool {
    let route = state.routes[b];
    &&& route.metric.metric != 4294967295
    &&& state.sources.contains_key(route.dst) ==> is_feasible(
        route.metric,
        state.sources[route.dst],
    )
}

/// A number that is as new as the one after the followed one has been asked for and is waited for.
pub open spec fn is_waited_for(state: StateView, dst: NodeId, now: Instant) -> bool {
    &&& state.requests.contains_key(dst)
    &&& now < state.requests[dst].expiry
    &&& !seq_newer(next_seq(state.sources[dst].seq), state.requests[dst].seq)
}

/// A selection ends with `dst`: nothing that leads there may be followed, though something was, and a
/// newer number is waited for already.
pub open spec fn ends_selection(state: StateView, dst: NodeId, now: Instant) -> bool {
    &&& state.sources.contains_key(dst)
    &&& state.best(dst) matches Some(b) && !may_follow(state, b)
    &&& is_waited_for(state, dst, now)
}

/// What the protocol does about the destination `d` when it selects routes.
spec fn block(state: StateView, d: NodeId, now: Instant) -> Seq<IgpAction> {
    match state.best(d) {
        None => Seq::empty(),
        Some(b) => lean_actions(state.decision(d, now), state.routes[b], state.diameter),
    }
}

proof fn lemma_handled(state: StateView, now: Instant, n: int)
    requires
        0 <= n <= destinations(state.routes).len(),
    ensures
        ({
            let done = state.handled(now, n);
            &&& done.len() <= n
            &&& done == destinations(state.routes).take(done.len() as int)
            &&& forall|k: int|
                0 <= k < done.len() - 1 ==> !ends_selection(state, #[trigger] done[k], now)
            &&& done.len() < n ==> done.len() > 0 && ends_selection(state, done.last(), now)
        }),
    decreases n,
{
    let all = destinations(state.routes);
    let done = state.handled(now, n);
    if n > 0 {
        lemma_handled(state, now, n - 1);
        let before = state.handled(now, n - 1);
        if before.len() > 0 {
            lemma_best_exists(state.routes, before.last());
            assert(state.decision(before.last(), now) is Suppress <==> ends_selection(
                state,
                before.last(),
                now,
            ));
        }
        if done.len() > before.len() {
            assert(done =~= all.take(done.len() as int));
            assert forall|k: int| 0 <= k < done.len() - 1 implies !ends_selection(
                state,
                #[trigger] done[k],
                now,
            ) by {
                assert(done[k] == before[k]);
            }
        }
    } else {
        assert(done =~= all.take(0));
    }
}

/// A selection goes through the destinations in their order. It stops after the first for which a newer
/// number is waited for in vain, and otherwise reaches them all.
pub proof fn lemma_decided_in_order(state: StateView, now: Instant)
    ensures
        ({
            let all = destinations(state.routes);
            let done = state.decided(now);
            &&& done.len() <= all.len()
            &&& done == all.take(done.len() as int)
            &&& forall|k: int|
                0 <= k < done.len() - 1 ==> !ends_selection(state, #[trigger] done[k], now)
            &&& done.len() < all.len() ==> done.len() > 0 && ends_selection(state, done.last(), now)
        }),
{
    lemma_handled(state, now, destinations(state.routes).len() as int);
}

proof fn lemma_blocks(state: StateView, done: Seq<NodeId>, now: Instant, a: IgpAction)
    ensures
        state.actions_for(done, now).contains(a) <==> exists|k: int|
            0 <= k < done.len() && #[trigger] block(state, done[k], now).contains(a),
    decreases done.len(),
{
    if done.len() > 0 {
        let rest = done.drop_last();
        let before = state.actions_for(rest, now);
        let last = block(state, done.last(), now);
        let all = state.actions_for(done, now);
        lemma_blocks(state, rest, now, a);
        assert(all == before + last);
        if all.contains(a) {
            let m = choose|m: int| 0 <= m < all.len() && all[m] == a;
            if m < before.len() {
                assert(before[m] == a);
                assert(before.contains(a));
                let k = choose|k: int|
                    0 <= k < rest.len() && #[trigger] block(state, rest[k], now).contains(a);
                assert(done[k] == rest[k]);
                assert(block(state, done[k], now).contains(a));
            } else {
                assert(last[m - before.len()] == a);
                assert(block(state, done[done.len() - 1], now).contains(a));
            }
        }
        if exists|k: int| 0 <= k < done.len() && #[trigger] block(state, done[k], now).contains(a) {
            let k = choose|k: int|
                0 <= k < done.len() && #[trigger] block(state, done[k], now).contains(a);
            if k < rest.len() {
                assert(rest[k] == done[k]);
                assert(block(state, rest[k], now).contains(a));
                let m = choose|m: int| 0 <= m < before.len() && before[m] == a;
                assert(all[m] == a);
            } else {
                let m = choose|m: int| 0 <= m < last.len() && last[m] == a;
                assert(all[before.len() + m] == a);
            }
        }
    }
}

/// What is done about the destination `d`, whose best route is `b`, when it is decided. Where that may be
/// followed, packets go to its neighbour; otherwise they go nowhere. Its metric as announced is handed
/// on when that has moved by more than the threshold. Where none may be followed though one was, a
/// number after the followed one is asked for, unless it has been asked for already.
pub open spec fn acts_on(state: StateView, actions: Seq<IgpAction>, now: Instant, b: int) -> bool {
    let route = state.routes[b];
    let d = route.dst;
    let followed = state.sources.contains_key(d);
    &&& forall|h: NodeId|
        #[trigger] actions.contains(IgpAction::SetRoute { dst: d, next_hop: h }) <==> (may_follow(
            state,
            b,
        ) && h == route.from)
    &&& actions.contains(IgpAction::RemoveRoute { dst: d }) <==> !may_follow(state, b)
    &&& forall|metric: SeqMetric|
        #[trigger] actions.contains(
            IgpAction::Broadcast { payload: IgpPayload::Update { metric, dst: d } },
        ) <==> (followed && may_follow(state, b) && metric == route.metric && (route.metric.metric
            - state.sources[d].metric > state.update_threshold || state.sources[d].metric
            - route.metric.metric > state.update_threshold))
    &&& forall|seq: SeqNo, ttl: u16|
        #[trigger] actions.contains(
            IgpAction::Broadcast { payload: IgpPayload::SequenceRequest { seq, dst: d, ttl } },
        ) <==> (followed && !may_follow(state, b) && !is_waited_for(state, d, now) && seq
            == next_seq(state.sources[d].seq) && ttl == state.diameter)
}

proof fn lemma_block_members(state: StateView, d: NodeId, now: Instant, a: IgpAction)
    ensures
        block(state, d, now).contains(a) ==> subject(a) == Some(d) && leads_to(state.routes, d),
        state.best(d) matches Some(b) ==> acts_on(state, block(state, d, now), now, b),
{
    lemma_best_exists(state.routes, d);
    match state.best(d) {
        None => {},
        Some(b) => {
            assert(leads_to(state.routes, d));
            let all = block(state, d, now);
            if all.contains(a) {
                let m = choose|m: int| 0 <= m < all.len() && all[m] == a;
                assert(all[m] == a);
            }
            if all.len() > 0 {
                assert(all.contains(all[0]));
            }
            if all.len() > 1 {
                assert(all.contains(all[1]));
            }
            assert(all.len() <= 2);
            assert forall|x: IgpAction| all.contains(x) implies (all.len() > 0 && x == all[0]) || (
            all.len() > 1 && x == all[1]) by {
                let m = choose|m: int| 0 <= m < all.len() && all[m] == x;
            }
        },
    }
}

/// What a selection does about each destination that it decides.
pub proof fn lemma_selection_acts(state: StateView, now: Instant, b: int)
    requires
        0 <= b < state.routes.len(),
        state.best(state.routes[b].dst) == Some(b),
        state.decided(now).contains(state.routes[b].dst),
    ensures
        acts_on(state, state.on_select(now).1, now, b),
{
    let d = state.routes[b].dst;
    let done = state.decided(now);
    let actions = state.on_select(now).1;
    assert forall|a: IgpAction| subject(a) == Some(d) implies (#[trigger] actions.contains(a) <==> block(
        state,
        d,
        now,
    ).contains(a)) by {
        lemma_blocks(state, done, now, a);
        if actions.contains(a) {
            let k = choose|k: int|
                0 <= k < done.len() && #[trigger] block(state, done[k], now).contains(a);
            lemma_block_members(state, done[k], now, a);
        }
        if block(state, d, now).contains(a) {
            let k = choose|k: int| 0 <= k < done.len() && done[k] == d;
            assert(block(state, done[k], now).contains(a));
        }
    }
    lemma_block_members(state, d, now, IgpAction::Stop);
}

/// A selection acts on the destinations that it decides, and on nothing else.
pub proof fn lemma_selection_acts_on_decided(state: StateView, now: Instant, k: int)
    requires
        0 <= k < state.on_select(now).1.len(),
    ensures
        subject(state.on_select(now).1[k]) matches Some(d) && state.decided(now).contains(d),
{
    let done = state.decided(now);
    let a = state.on_select(now).1[k];
    assert(state.on_select(now).1.contains(a));
    lemma_blocks(state, done, now, a);
    let j = choose|j: int| 0 <= j < done.len() && #[trigger] block(state, done[j], now).contains(a);
    lemma_block_members(state, done[j], now, a);
}

/// What is broadcast about a destination when routes are selected comes right after its forwarding
/// entry has been set or removed.
pub proof fn lemma_forwarding_set_first(state: StateView, now: Instant, k: int)
    requires
        0 <= k < state.on_select(now).1.len(),
        state.on_select(now).1[k] is Broadcast,
    ensures
        k > 0,
        subject(state.on_select(now).1[k - 1]) == subject(state.on_select(now).1[k]),
        state.on_select(now).1[k - 1] is SetRoute
            <==> state.on_select(now).1[k]->Broadcast_payload is Update,
        !(state.on_select(now).1[k - 1] is Broadcast),
{
    lemma_set_first(state, state.decided(now), now, k);
}

proof fn lemma_set_first(state: StateView, done: Seq<NodeId>, now: Instant, k: int)
    requires
        0 <= k < state.actions_for(done, now).len(),
        state.actions_for(done, now)[k] is Broadcast,
    ensures
        k > 0,
        subject(state.actions_for(done, now)[k - 1]) == subject(state.actions_for(done, now)[k]),
        state.actions_for(done, now)[k - 1] is SetRoute <==> state.actions_for(
            done,
            now,
        )[k]->Broadcast_payload is Update,
        !(state.actions_for(done, now)[k - 1] is Broadcast),
    decreases done.len(),
{
    if done.len() > 0 {
        let before = state.actions_for(done.drop_last(), now);
        let last = block(state, done.last(), now);
        assert(state.actions_for(done, now) == before + last);
        if k < before.len() {
            lemma_set_first(state, done.drop_last(), now, k);
        } else {
            assert(state.actions_for(done, now)[k] == last[k - before.len()]);
        }
    }
}

/// A destination that is decided has its best route selected if it was followed before and that may be
/// followed; a route that was selected stays so. The metric followed is then that of the best route, and
/// stays what it was where no route may be followed.
pub proof fn lemma_selection_follows_best(state: StateView, now: Instant, b: int)
    requires
        0 <= b < state.routes.len(),
        state.best(state.routes[b].dst) == Some(b),
        state.decided(now).contains(state.routes[b].dst),
        state.clock_fits(now),
    ensures
        ({
            let route = state.routes[b];
            let d = route.dst;
            let followed = state.sources.contains_key(d);
            let after = state.on_select(now).0;
            &&& after.routes.len() == state.routes.len()
            &&& forall|i: int|
                0 <= i < state.routes.len() && (#[trigger] state.routes[i]).dst == d ==> (
                after.routes[i].selected <==> state.routes[i].selected || (i == b && followed
                    && may_follow(state, b)))
            &&& may_follow(state, b) ==> after.sources.contains_key(d) && after.sources[d]
                == route.metric
            &&& !may_follow(state, b) ==> (after.sources.contains_key(d) <==> followed)
            &&& !may_follow(state, b) && followed ==> after.sources[d] == state.sources[d]
            &&& if followed && !may_follow(state, b) && !is_waited_for(state, d, now) {
                after.requests.contains_key(d) && after.requests[d].seq == next_seq(
                    state.sources[d].seq,
                ) && after.requests[d].expiry == now + state.seqno_request_timeout
            } else {
                (after.requests.contains_key(d) <==> state.requests.contains_key(d)) && (
                state.requests.contains_key(d) ==> after.requests[d] == state.requests[d])
            }
        }),
{
}

/// A selection changes nothing about the routes but which are selected, and nothing about destinations
/// that it does not decide; links and limits stay as they are.
pub proof fn lemma_selection_keeps_the_rest(state: StateView, now: Instant, d: NodeId)
    requires
        !state.decided(now).contains(d),
    ensures
        ({
            let after = state.on_select(now).0;
            &&& same_announcements(after.routes, state.routes)
            &&& forall|i: int|
                0 <= i < state.routes.len() ==> (#[trigger] after.routes[i]).computed_metric
                    == state.routes[i].computed_metric
            &&& forall|i: int|
                0 <= i < state.routes.len() && state.routes[i].dst == d ==> (
                #[trigger] after.routes[i]) == state.routes[i]
            &&& after == (StateView {
                routes: after.routes,
                sources: after.sources,
                requests: after.requests,
                ..state
            })
            &&& after.sources.contains_key(d) <==> state.sources.contains_key(d)
            &&& state.sources.contains_key(d) ==> after.sources[d] == state.sources[d]
            &&& after.requests.contains_key(d) <==> state.requests.contains_key(d)
            &&& state.requests.contains_key(d) ==> after.requests[d] == state.requests[d]
        }),
{
    assert forall|i: int| 0 <= i < state.routes.len() && state.routes[i].dst == d implies (
    #[trigger] state.on_select(now).0.routes[i]) == state.routes[i] by {
        assert(!state.chosen(state.decided(now), now, i));
    }
}

/// The routes are selected anew once an announcement has gone out, and not otherwise.
pub proof fn lemma_announcement_gone_out(state: StateView, e: LinkError, now: Instant)
    ensures
        state.on_announced(Ok(()), now) == state.on_select(now),
        state.on_announced(Err(e), now).0 == state,
        state.on_announced(Err(e), now).1.len() == 0,
{
}

/// An announcement of a new route is heeded if it is reachable and feasible; one of a known route if it
/// leads to a destination that is followed and, while it is selected, stays feasible.
pub open spec fn is_heeded(state: StateView, src: NodeId, metric: SeqMetric, dst: NodeId) -> bool {
    let followed = state.sources.contains_key(dst);
    let feasible = is_feasible(metric, state.sources[dst]);
    match route_index(state.routes, dst, src, state.routes.len() as int) {
        Some(i) => followed && (feasible || !state.routes[i].selected),
        None => metric.metric != 4294967295 && (followed ==> feasible),
    }
}

/// An announcement that is not heeded changes nothing and causes nothing.
pub proof fn lemma_unheeded_update(
    state: StateView,
    src: NodeId,
    metric: SeqMetric,
    dst: NodeId,
    now: Instant,
)
    requires
        !is_heeded(state, src, metric, dst),
    ensures
        ({
            let (after, actions, told) = state.on_packet(src, IgpPayload::Update { metric, dst }, now);
            after == state && actions.len() == 0 && told is None
        }),
{
    lemma_route_index(state.routes, dst, src, state.routes.len() as int);
}

/// The routes after a heeded announcement: the one that it concerns has the announced metric, the
/// computed one plus the cost of the link, or nearly unreachable where that is not known, and a new
/// deadline. All other routes stay.
pub open spec fn is_taken(
    state: StateView,
    taken: StateView,
    src: NodeId,
    metric: SeqMetric,
    dst: NodeId,
    now: Instant,
) -> bool {
    let known = route_index(state.routes, dst, src, state.routes.len() as int);
    let i = match known {
        Some(i) => i,
        None => state.routes.len() as int,
    };
    let route = taken.routes[i];
    let answered = state.requests.contains_key(dst) && !seq_older(
        metric.seq,
        state.requests[dst].seq,
    );
    &&& known is Some ==> taken.routes.len() == state.routes.len()
    &&& known is None ==> taken.routes.len() == state.routes.len() + 1
    &&& 0 <= i < taken.routes.len()
    &&& route.dst == dst && route.from == src
    &&& route.metric == metric
    &&& route.timeout == now + state.route_timeout
    &&& known is None ==> !route.selected
    &&& known is Some ==> (route.selected <==> state.routes[i].selected)
    &&& metric.metric == 4294967295 ==> route.computed_metric == 4294967295
    &&& metric.metric != 4294967295 && state.costs.contains_key(src) ==> is_sum(
        route.computed_metric,
        metric.metric,
        state.costs[src].cost,
    )
    &&& metric.metric != 4294967295 && !state.costs.contains_key(src) ==> route.computed_metric
        == 4294967294
    &&& forall|j: int|
        0 <= j < state.routes.len() && j != i ==> (#[trigger] taken.routes[j]) == state.routes[j]
    &&& taken.requests.contains_key(dst) <==> state.requests.contains_key(dst) && !answered
    &&& forall|d: NodeId|
        d != dst ==> (#[trigger] taken.requests.contains_key(d) <==> state.requests.contains_key(d))
    &&& forall|d: NodeId| #[trigger]
        taken.requests.contains_key(d) ==> taken.requests[d] == state.requests[d]
    &&& taken == (StateView { routes: taken.routes, requests: taken.requests, ..state })
}

/// A heeded announcement is taken. Where a newer sequence number of that destination had been asked
/// for, the route is to be announced, with the metric as seen from here, and nothing else is done yet;
/// the wait is over if the number is as new as that. Otherwise the routes are selected anew.
pub proof fn lemma_heeded_update(
    state: StateView,
    src: NodeId,
    metric: SeqMetric,
    dst: NodeId,
    now: Instant,
)
    requires
        state.clock_fits(now),
        is_heeded(state, src, metric, dst),
    ensures
        ({
            let (after, actions, told) = state.on_packet(src, IgpPayload::Update { metric, dst }, now);
            if state.requests.contains_key(dst) {
                &&& is_taken(state, after, src, metric, dst, now)
                &&& actions.len() == 0
                &&& told matches Some(IgpPayload::Update { metric: seen, dst: about }) && about == dst
                    && seen.seq == metric.seq && exists|i: int|
                    0 <= i < after.routes.len() && (#[trigger] after.routes[i]).dst == dst
                        && after.routes[i].from == src && seen.metric
                        == after.routes[i].computed_metric && after.routes[i].metric == metric
            } else {
                &&& told is None
                &&& exists|taken: StateView|
                    is_taken(state, taken, src, metric, dst, now) && (after, actions)
                        == #[trigger] taken.on_select(now)
            }
        }),
{
    let n = state.routes.len() as int;
    let routes = state.routes_after_update(src, metric, dst, now)->0;
    lemma_route_index(state.routes, dst, src, n);
    lemma_route_index(routes, dst, src, routes.len() as int);
    let known = route_index(state.routes, dst, src, n);
    let i = match known {
        Some(i) => i,
        None => n,
    };
    lemma_first_found(state.routes, routes, dst, src, n, i);
    assert(routes[i].dst == dst && routes[i].from == src);
    let answered = state.requests.contains_key(dst) && !seq_older(
        metric.seq,
        state.requests[dst].seq,
    );
    let taken = StateView {
        routes,
        requests: if answered {
            state.requests.remove(dst)
        } else {
            state.requests
        },
        ..state
    };
    assert(is_taken(state, taken, src, metric, dst, now));
    let (after, actions, told) = state.on_packet(src, IgpPayload::Update { metric, dst }, now);
    if !state.requests.contains_key(dst) {
        assert((after, actions) == taken.on_select(now));
    } else {
        assert(after.routes[i] == routes[i]);
    }
}

proof fn lemma_first_found(
    before: Seq<Route>,
    after: Seq<Route>,
    dst: NodeId,
    src: NodeId,
    n: int,
    i: int,
)
    requires
        0 <= n <= before.len() <= after.len(),
        0 <= i < after.len(),
        after[i].dst == dst && after[i].from == src,
        i < n ==> route_index(before, dst, src, n) == Some(i),
        i >= n ==> route_index(before, dst, src, n) is None,
        forall|j: int|
            0 <= j < before.len() && j != i ==> (#[trigger] after[j]).dst == before[j].dst
                && after[j].from == before[j].from,
        i < before.len() ==> before[i].dst == dst && before[i].from == src,
    ensures
        i < n ==> route_index(after, dst, src, n) == Some(i),
        i >= n ==> route_index(after, dst, src, n) is None,
        i == n && n < after.len() ==> route_index(after, dst, src, n + 1) == Some(i),
    decreases n,
{
    if n > 0 {
        if i < n {
            lemma_route_index(before, dst, src, n - 1);
            if route_index(before, dst, src, n - 1) is None {
                assert(i == n - 1);
            }
        }
        lemma_first_found(before, after, dst, src, n - 1, i);
    }
}

/// A request for a route is answered to all neighbours with the selected route to the destination if
/// there is one, and not at all otherwise. Nothing changes.
pub proof fn lemma_route_request_answered(state: StateView, src: NodeId, dst: NodeId, now: Instant)
    ensures
        ({
            let (after, actions, told) = state.on_packet(src, IgpPayload::RouteRequest { dst }, now);
            &&& after == state
            &&& told is None
            &&& actions.len() <= 1
            &&& actions.len() == 1 <==> exists|i: int|
                0 <= i < state.routes.len() && (#[trigger] state.routes[i]).dst == dst
                    && state.routes[i].selected
            &&& actions.len() == 1 ==> (actions[0] matches IgpAction::Broadcast {
                payload: IgpPayload::Update { metric, dst: about },
            } && about == dst && exists|i: int|
                0 <= i < state.routes.len() && (#[trigger] state.routes[i]).dst == dst
                    && state.routes[i].selected && metric.seq == state.routes[i].metric.seq
                    && metric.metric == state.routes[i].computed_metric)
        }),
{
    lemma_selected_found(state.routes, dst, state.routes.len() as int);
}

/// A request for a newer number, where route `i` is the only one to the destination that is selected.
/// Where it cannot be reached the request is dropped. A node whose route is new enough announces it.
/// The destination itself counts on by one and announces that. Any other node that follows the
/// destination remembers the request and hands it on with a smaller lifetime, if it has one left and is
/// not waiting for such a number already.
pub proof fn lemma_sequence_request_served(
    state: StateView,
    src: NodeId,
    seq: SeqNo,
    dst: NodeId,
    ttl: u16,
    now: Instant,
    i: int,
)
    requires
        state.clock_fits(now),
        0 <= i < state.routes.len(),
        state.routes[i].dst == dst,
        state.routes[i].selected,
        forall|j: int|
            0 <= j < state.routes.len() && (#[trigger] state.routes[j]).dst == dst
                && state.routes[j].selected ==> j == i,
    ensures
        ({
            let route = state.routes[i];
            let (after, actions, told) = state.on_packet(
                src,
                IgpPayload::SequenceRequest { seq, dst, ttl },
                now,
            );
            &&& told is None
            &&& if route.metric.metric == 4294967295 {
                after == state && actions.len() == 0
            } else if !seq_newer(seq, route.metric.seq) {
                &&& after == state
                &&& actions == seq![
                    IgpAction::Broadcast {
                        payload: IgpPayload::Update {
                            metric: SeqMetric {
                                seq: route.metric.seq,
                                metric: route.computed_metric,
                            },
                            dst,
                        },
                    },
                ]
            } else if dst == state.id {
                &&& after == (StateView { routes: state.routes.update(i, after.routes[i]), ..state })
                &&& after.routes[i] == (Route {
                    metric: SeqMetric {
                        seq: next_seq(route.metric.seq),
                        metric: route.metric.metric,
                    },
                    ..route
                })
                &&& actions == seq![
                    IgpAction::Broadcast {
                        payload: IgpPayload::Update {
                            metric: SeqMetric {
                                seq: next_seq(route.metric.seq),
                                metric: route.computed_metric,
                            },
                            dst,
                        },
                    },
                ]
            } else if ttl == 0 || !state.sources.contains_key(dst) || (state.requests.contains_key(
                dst,
            ) && now < state.requests[dst].expiry && !seq_newer(seq, state.requests[dst].seq)) {
                after == state && actions.len() == 0
            } else {
                &&& after.requests.contains_key(dst)
                &&& after.requests[dst].seq == seq
                &&& after.requests[dst].expiry == now + state.seqno_request_timeout
                &&& after == (StateView {
                    requests: state.requests.insert(dst, after.requests[dst]),
                    ..state
                })
                &&& actions.len() <= 1
                &&& actions.len() == 1 <==> exists|j: int|
                    0 <= j < state.routes.len() && (#[trigger] state.routes[j]).dst == dst
                        && state.routes[j].from != src
                &&& actions.len() == 1 ==> (actions[0] matches IgpAction::SendLink { link, payload }
                    && payload == (IgpPayload::SequenceRequest {
                    seq,
                    dst,
                    ttl: (ttl - 1) as u16,
                }) && is_best_way_on(state, src, dst, link))
            }
        }),
{
    let n = state.routes.len() as int;
    lemma_selected_found(state.routes, dst, n);
    lemma_hand_on(state.routes, dst, src, Some(state.sources[dst]), n);
    lemma_hand_on(state.routes, dst, src, None, n);
}

/// Over `link` there is a way to `dst` other than over `src`. If there is a feasible one it is feasible,
/// and of those with the same standing none was announced with a lower metric.
pub open spec fn is_best_way_on(state: StateView, src: NodeId, dst: NodeId, link: NodeId) -> bool {
    exists|j: int|
        {
            let route = #[trigger] state.routes[j];
            let bound = state.sources[dst];
            &&& 0 <= j < state.routes.len()
            &&& route.dst == dst && route.from == link && link != src
            &&& forall|k: int|
                0 <= k < state.routes.len() && (#[trigger] state.routes[k]).dst == dst
                    && state.routes[k].from != src && is_feasible(state.routes[k].metric, bound)
                    ==> is_feasible(route.metric, bound) && route.metric.metric
                    <= state.routes[k].metric.metric
            &&& !is_feasible(route.metric, bound) ==> forall|k: int|
                0 <= k < state.routes.len() && (#[trigger] state.routes[k]).dst == dst
                    && state.routes[k].from != src ==> route.metric.metric
                    <= state.routes[k].metric.metric
        }
}

/// Without a selected route to the destination a request for a newer number is dropped.
pub proof fn lemma_sequence_request_dropped(
    state: StateView,
    src: NodeId,
    seq: SeqNo,
    dst: NodeId,
    ttl: u16,
    now: Instant,
)
    requires
        forall|i: int|
            0 <= i < state.routes.len() && (#[trigger] state.routes[i]).dst == dst
                ==> !state.routes[i].selected,
    ensures
        ({
            let (after, actions, told) = state.on_packet(
                src,
                IgpPayload::SequenceRequest { seq, dst, ttl },
                now,
            );
            after == state && actions.len() == 0 && told is None
        }),
{
    lemma_selected_found(state.routes, dst, state.routes.len() as int);
}

/// The reply to the last hello measures the link: the first one is taken as it is, in milliseconds, and
/// a later one moves the cost by 164 parts in 1000. Nothing else that is known of links changes.
pub proof fn lemma_reply_measures_link(state: StateView, src: NodeId, seq: SeqNo, now: Instant)
    requires
        state.costs.contains_key(src),
        state.costs[src].seq == seq,
    ensures
        ({
            let before = state.costs[src];
            let after = state.on_packet(src, IgpPayload::HelloReply { seq }, now).0.costs;
            let elapsed: int = if now >= before.start {
                now - before.start
            } else {
                0
            };
            let measured = elapsed / 1_000_000;
            &&& after == state.costs.insert(src, after[src])
            &&& after[src].seq == seq
            &&& after[src].start == before.start
            &&& before.cost == 4294967295 && measured < 4294967296 ==> after[src].cost == measured
            &&& before.cost < 4294967295 && measured < 4294967296 ==> 1000 * after[src].cost <= 836
                * before.cost + 164 * measured < 1000 * after[src].cost + 1000
        }),
{
}

/// A reply to any other hello than the last one over that link changes nothing and causes nothing.
pub proof fn lemma_stale_reply_ignored(state: StateView, src: NodeId, seq: SeqNo, now: Instant)
    requires
        !state.costs.contains_key(src) || state.costs[src].seq != seq,
    ensures
        state.on_packet(src, IgpPayload::HelloReply { seq }, now).0 == state,
        state.on_packet(src, IgpPayload::HelloReply { seq }, now).1.len() == 0,
        state.on_packet(src, IgpPayload::HelloReply { seq }, now).2 is None,
{
}

/// After a reply that has changed the cost of a link, the computed metric of each route over that link
/// is the announced one plus the present cost, whatever it was before; all other routes keep theirs.
/// Where the cost has not changed, or no route goes over the link, nothing is done.
pub proof fn lemma_reply_recomputes_metrics(state: StateView, src: NodeId, seq: SeqNo, now: Instant)
    requires
        state.costs.contains_key(src),
        state.costs[src].seq == seq,
    ensures
        ({
            let (after, actions, told) = state.on_packet(src, IgpPayload::HelloReply { seq }, now);
            let cost = after.costs[src].cost;
            let used = exists|i: int|
                0 <= i < state.routes.len() && (#[trigger] state.routes[i]).from == src;
            &&& told is None
            &&& same_announcements(after.routes, state.routes)
            &&& cost == state.costs[src].cost || !used ==> actions.len() == 0 && after == (
            StateView { costs: after.costs, ..state })
            &&& cost != state.costs[src].cost ==> forall|i: int|
                0 <= i < state.routes.len() ==> if (#[trigger] after.routes[i]).from == src {
                    is_sum(after.routes[i].computed_metric, state.routes[i].metric.metric, cost)
                } else {
                    after.routes[i].computed_metric == state.routes[i].computed_metric
                }
            &&& cost != state.costs[src].cost && used ==> exists|between: StateView|
                {
                    &&& (after, actions) == #[trigger] between.on_select(now)
                    &&& between == (StateView {
                        costs: after.costs,
                        routes: between.routes,
                        ..state
                    })
                    &&& same_announcements(between.routes, state.routes)
                    &&& forall|i: int|
                        0 <= i < state.routes.len() ==> (#[trigger] between.routes[i]).selected
                            == state.routes[i].selected
                }
        }),
{
    let (after, actions, told) = state.on_packet(src, IgpPayload::HelloReply { seq }, now);
    let cost = after.costs[src].cost;
    if cost != state.costs[src].cost {
        let between = (StateView { costs: after.costs, ..state }).with_link_cost(src, cost);
        if exists|i: int| 0 <= i < state.routes.len() && (#[trigger] state.routes[i]).from == src {
            assert((after, actions) == between.on_select(now));
        }
        assert forall|i: int| 0 <= i < state.routes.len() implies if (
        #[trigger] after.routes[i]).from == src {
            is_sum(after.routes[i].computed_metric, state.routes[i].metric.metric, cost)
        } else {
            after.routes[i].computed_metric == state.routes[i].computed_metric
        } by {
            if state.routes[i].from == src {
                assert(after.routes[i].computed_metric == between.routes[i].computed_metric);
            }
        }
    }
}

/// A hello is answered with its number, over the link it came from, and changes nothing.
pub proof fn lemma_hello_answered(state: StateView, src: NodeId, seq: SeqNo, now: Instant)
    ensures
        ({
            let (after, actions, told) = state.on_packet(src, IgpPayload::Hello { seq }, now);
            &&& after == state
            &&& told is None
            &&& actions.len() == 1
            &&& actions[0] == (IgpAction::SendLink {
                link: src,
                payload: IgpPayload::HelloReply { seq },
            })
        }),
{
}

/// A hello over each of some links, each once: every link counts on by one and starts anew, keeping its
/// cost; a link that was not known starts at zero and without a cost. All other links, and everything
/// else, stay as they are. Each neighbour is sent the number that its link now has.
pub proof fn lemma_hello_over_links(state: StateView, links: Vec<NodeId>, now: Instant)
    requires
        links@.no_duplicates(),
    ensures
        ({
            let (after, actions, told) = state.on_event(IgpEvent::HelloTick { links }, now);
            &&& told is None
            &&& after == (StateView { costs: after.costs, ..state })
            &&& after.costs.dom() == state.costs.dom().union(links@.to_set())
            &&& forall|n: NodeId| #[trigger]
                state.costs.contains_key(n) && !links@.contains(n) ==> after.costs[n]
                    == state.costs[n]
            &&& actions.len() == links@.len()
            &&& forall|i: int|
                0 <= i < links@.len() ==> {
                    let cost = after.costs[#[trigger] links@[i]];
                    &&& actions[i] == (IgpAction::SendLink {
                        link: links@[i],
                        payload: IgpPayload::Hello { seq: cost.seq },
                    })
                    &&& cost.start == now
                    &&& if state.costs.contains_key(links@[i]) {
                        cost.cost == state.costs[links@[i]].cost && cost.seq == next_seq(
                            state.costs[links@[i]].seq,
                        )
                    } else {
                        cost.cost == 4294967295 && cost.seq.0 == 0
                    }
                }
        }),
{
    lemma_hellos(state.costs, links@, now);
}

/// A dump by the clock announces every route, in order and as its neighbour announced it; nothing
/// changes. Nobody is answered who asks for one.
pub proof fn lemma_dump_relays_routes(state: StateView, src: NodeId, now: Instant)
    ensures
        ({
            let (after, actions, told) = state.on_event(IgpEvent::DumpTick, now);
            &&& after == state
            &&& told is None
            &&& actions.len() == state.routes.len()
            &&& forall|i: int|
                0 <= i < state.routes.len() ==> #[trigger] actions[i] == (IgpAction::Broadcast {
                    payload: IgpPayload::Update {
                        metric: state.routes[i].metric,
                        dst: state.routes[i].dst,
                    },
                })
        }),
        ({
            let (after, actions, told) = state.on_packet(src, IgpPayload::RouteDump, now);
            after == state && actions.len() == 0 && told is None
        }),
{
    lemma_relays(state.routes);
}

proof fn lemma_relays(routes: Seq<Route>)
    ensures
        relay_actions(routes).len() == routes.len(),
        forall|i: int|
            0 <= i < routes.len() ==> #[trigger] relay_actions(routes)[i] == (IgpAction::Broadcast {
                payload: IgpPayload::Update { metric: routes[i].metric, dst: routes[i].dst },
            }),
    decreases routes.len(),
{
    if routes.len() > 0 {
        lemma_relays(routes.drop_last());
    }
}

/// A collection drops the requests whose time has come and keeps the others, and never forgets what is
/// followed; then the routes are selected anew.
pub proof fn lemma_gc_forgets(state: StateView, now: Instant)
    ensures
        ({
            let (after, actions, told) = state.on_event(IgpEvent::GcTick, now);
            let aged = state.aged(now);
            &&& told is None
            &&& after == aged.on_select(now).0
            &&& actions == expiry_actions(state.routes, now) + aged.on_select(now).1
            &&& forall|d: NodeId| #[trigger]
                aged.requests.contains_key(d) <==> state.requests.contains_key(d)
                    && state.requests[d].expiry > now
            &&& forall|d: NodeId| #[trigger]
                aged.requests.contains_key(d) ==> aged.requests[d] == state.requests[d]
            &&& aged == (StateView { requests: aged.requests, routes: aged.routes, ..state })
        }),
{
}

/// A collection keeps, in order and aged, the routes whose time has not come or that become unreachable
/// now, and drops those that have been unreachable for their time. Each neighbour of a route that
/// becomes unreachable now is asked for it, and no other.
pub proof fn lemma_gc_ages_routes(state: StateView, now: Instant, i: int)
    requires
        0 <= i < state.routes.len(),
    ensures
        ({
            let route = state.routes[i];
            let after = state.aged(now).routes;
            let timeout = state.route_timeout;
            let asked = expiry_actions(state.routes, now);
            &&& route.timeout > now || route.metric.metric != 4294967295 ==> exists|k: int|
                0 <= k < after.len() && is_aged(route, #[trigger] after[k], now, timeout)
            &&& route.timeout <= now && route.metric.metric != 4294967295 ==> asked.contains(
                IgpAction::SendLink {
                    link: route.from,
                    payload: IgpPayload::RouteRequest { dst: route.dst },
                },
            )
            &&& forall|k: int|
                0 <= k < after.len() ==> comes_from(state.routes, #[trigger] after[k], now, timeout)
            &&& forall|k: int|
                0 <= k < asked.len() ==> is_asked(state.routes, #[trigger] asked[k], now)
            &&& after.len() <= state.routes.len()
            &&& asked.len() <= state.routes.len()
        }),
{
    lemma_aging(state.routes, now, state.route_timeout);
    let route = state.routes[i];
    if route.timeout > now || route.metric.metric != 4294967295 {
        assert(stands(route, state.aged(now).routes, now, state.route_timeout));
    }
}

/// When a link comes up the forwarding entries of the selected routes are set anew, and of no others.
/// When one goes down nothing is done.
pub proof fn lemma_link_changes(
    state: StateView,
    link: NodeId,
    now: Instant,
    dst: NodeId,
    next_hop: NodeId,
)
    ensures
        ({
            let (after, actions, told) = state.on_event(IgpEvent::LinkUp { link }, now);
            &&& after == state
            &&& told is None
            &&& actions.contains(IgpAction::SetRoute { dst, next_hop }) <==> exists|i: int|
                0 <= i < state.routes.len() && (#[trigger] state.routes[i]).selected
                    && state.routes[i].dst == dst && state.routes[i].from == next_hop
            &&& forall|k: int| 0 <= k < actions.len() ==> (#[trigger] actions[k]) is SetRoute
        }),
        ({
            let (after, actions, told) = state.on_event(IgpEvent::LinkDown { link }, now);
            after == state && actions.len() == 0 && told is None
        }),
{
    lemma_exports(state.routes, dst, next_hop);
}

/// Without a packet, and when the mesh is gone, the protocol ends; other events of the mesh cause
/// nothing. None of these changes anything. A packet is taken as it arrives.
pub proof fn lemma_events(state: StateView, src: NodeId, payload: IgpPayload, now: Instant)
    ensures
        state.on_event(IgpEvent::Packet { packet: None }, now) == (
            state,
            seq![IgpAction::Stop],
            None::<IgpPayload>,
        ),
        state.on_event(IgpEvent::Closed, now) == (state, seq![IgpAction::Stop], None::<IgpPayload>),
        state.on_event(IgpEvent::Other, now) == (
            state,
            Seq::<IgpAction>::empty(),
            None::<IgpPayload>,
        ),
        state.on_event(IgpEvent::Packet { packet: Some((src, payload)) }, now) == state.on_packet(
            src,
            payload,
            now,
        ),
{
}

} // verus!
