//! What holds of the full mesh with several connections to each node.

use vstd::prelude::*;
use crate::packet::{Duration, Instant, NodeId};
use crate::tables::lemma_picked;
use crate::uapi::ConnState;
use super::candidates::{candidate_octets, filtered_sections, is_allowed};
use super::peers::{
    conn_entries, conn_entry, favourite, ids_distinct, is_over, kept, lemma_newest_first_descends,
    lemma_oldest_first_ascends, lemma_order_keeps_connections, newest, newest_first, oldest_first,
    pruned, reselected, selected_of, up, without, ConnObservation, FullMeshView, PeerConn,
    SignalDecision, SignalError, SignalPayload,
};

verus! {

/// A connection is kept while it is young, up to the time that it has to come up, and while it is up;
/// and otherwise it is not.
pub proof fn lemma_kept(
    conns: Seq<PeerConn>,
    states: Map<u128, ConnState>,
    now: Instant,
    timeout: Duration,
)
    ensures
        forall|c: PeerConn| #[trigger]
            kept(conns, states, now, timeout).contains(c) <==> conns.contains(c) && (now - c.time
                <= timeout || (states.contains_key(c.id) && states[c.id] == ConnState::Connected)),
        kept(conns, states, now, timeout).len() <= conns.len(),
    decreases conns.len(),
{
    let p = |c: PeerConn|
        now - c.time <= timeout || (states.contains_key(c.id) && states[c.id]
            == ConnState::Connected);
    if conns.len() > 0 {
        lemma_kept(conns.drop_last(), states, now, timeout);
        lemma_picked(
            conns,
            kept(conns.drop_last(), states, now, timeout),
            kept(conns, states, now, timeout),
            p,
        );
    }
}

/// The connections that are up are those whose state is known and connected.
pub proof fn lemma_up(conns: Seq<PeerConn>, states: Map<u128, ConnState>)
    ensures
        forall|c: PeerConn| #[trigger]
            up(conns, states).contains(c) <==> conns.contains(c) && states.contains_key(c.id)
                && states[c.id] == ConnState::Connected,
        up(conns, states).len() <= conns.len(),
        ids_distinct(conns) ==> ids_distinct(up(conns, states)),
    decreases conns.len(),
{
    let p = |c: PeerConn| states.contains_key(c.id) && states[c.id] == ConnState::Connected;
    if conns.len() > 0 {
        let rest = conns.drop_last();
        let before = up(rest, states);
        let all = up(conns, states);
        lemma_up(rest, states);
        lemma_picked(conns, before, all, p);
        if ids_distinct(conns) {
            assert forall|i: int, j: int| 0 <= i < j < rest.len() implies (#[trigger] rest[i]).id != (
            #[trigger] rest[j]).id by {
                assert(conns[i].id != conns[j].id);
            }
            assert forall|i: int, j: int| 0 <= i < j < all.len() implies (#[trigger] all[i]).id != (
            #[trigger] all[j]).id by {
                if j < before.len() {
                    assert(before[i].id != before[j].id);
                } else {
                    assert(before.contains(before[i]));
                    let k = choose|k: int| 0 <= k < rest.len() && rest[k] == before[i];
                    assert(conns[k].id != conns[conns.len() - 1].id);
                }
            }
        }
    }
}

/// Forgetting a connection forgets it and no other.
pub proof fn lemma_without(conns: Seq<PeerConn>, id: u128)
    ensures
        forall|c: PeerConn| #[trigger]
            without(conns, id).contains(c) <==> conns.contains(c) && c.id != id,
        without(conns, id).len() <= conns.len(),
        ids_distinct(conns) ==> without(conns, id).len() >= conns.len() - 1,
    decreases conns.len(),
{
    let p = |c: PeerConn| c.id != id;
    if conns.len() > 0 {
        let rest = conns.drop_last();
        lemma_without(rest, id);
        lemma_picked(conns, without(rest, id), without(conns, id), p);
        if ids_distinct(conns) {
            assert forall|i: int, j: int| 0 <= i < j < rest.len() implies (#[trigger] rest[i]).id != (
            #[trigger] rest[j]).id by {
                assert(conns[i].id != conns[j].id);
            }
            if conns.last().id == id {
                assert forall|i: int| 0 <= i < rest.len() implies (#[trigger] rest[i]).id != id by {
                    assert(conns[i].id != conns[conns.len() - 1].id);
                }
                lemma_without_nothing(rest, id);
            }
        }
    }
}

proof fn lemma_without_nothing(conns: Seq<PeerConn>, id: u128)
    requires
        forall|i: int| 0 <= i < conns.len() ==> (#[trigger] conns[i]).id != id,
    ensures
        without(conns, id) == conns,
    decreases conns.len(),
{
    if conns.len() > 0 {
        let rest = conns.drop_last();
        assert forall|i: int| 0 <= i < rest.len() implies (#[trigger] rest[i]).id != id by {
            assert(rest[i] == conns[i]);
        }
        lemma_without_nothing(rest, id);
        assert(conns[conns.len() - 1].id != id);
        assert(without(conns, id) =~= conns);
    } else {
        assert(without(conns, id) =~= conns);
    }
}

/// The time of the newest connection is that of one of them, and none is newer.
pub proof fn lemma_newest(conns: Seq<PeerConn>)
    requires
        conns.len() > 0,
    ensures
        exists|i: int| 0 <= i < conns.len() && (#[trigger] conns[i]).time == newest(conns),
        forall|i: int| 0 <= i < conns.len() ==> (#[trigger] conns[i]).time <= newest(conns),
    decreases conns.len(),
{
    if conns.len() > 1 {
        let rest = conns.drop_last();
        lemma_newest(rest);
        let k = choose|k: int| 0 <= k < rest.len() && (#[trigger] rest[k]).time == newest(rest);
        assert(conns[k] == rest[k]);
        assert(conns[conns.len() - 1] == conns.last());
        assert forall|i: int| 0 <= i < conns.len() implies (#[trigger] conns[i]).time <= newest(
            conns,
        ) by {
            if i < rest.len() {
                assert(rest[i] == conns[i]);
            }
        }
    } else {
        assert(conns[0].time == newest(conns));
    }
}

/// The order holds what the list holds.
proof fn lemma_same_members(a: Seq<PeerConn>, b: Seq<PeerConn>)
    requires
        a.to_multiset() == b.to_multiset(),
    ensures
        forall|c: PeerConn| #[trigger] a.contains(c) <==> b.contains(c),
{
    a.to_multiset_ensures();
    b.to_multiset_ensures();
    assert forall|c: PeerConn| #[trigger] a.contains(c) <==> b.contains(c) by {
        assert(a.contains(c) <==> a.to_multiset().count(c) > 0);
        assert(b.contains(c) <==> b.to_multiset().count(c) > 0);
    }
}

/// The connection to select is one that is up. If it is the only one it is that one; otherwise there is
/// one beside it that is as new or newer, and all others are as old or older: it is the newest but one.
/// Where none is up there is none to select.
pub proof fn lemma_newest_but_one_selected(conns: Seq<PeerConn>, states: Map<u128, ConnState>)
    requires
        ids_distinct(conns),
    ensures
        ({
            let ready = up(conns, states);
            match favourite(conns, states) {
                None => ready.len() == 0,
                Some(id) => {
                    &&& ready.len() == 1 ==> ready[0].id == id
                    &&& ready.len() > 0
                    &&& ready.len() > 1 ==> exists|a: PeerConn, b: PeerConn|
                        ready.contains(a) && ready.contains(b) && a.id != b.id && b.id == id && a.time
                            >= b.time && #[trigger] none_newer(ready, a, b)
                },
            }
        }),
{
    let ready = up(conns, states);
    let sorted = newest_first(ready);
    lemma_up(conns, states);
    lemma_order_keeps_connections(ready);
    lemma_newest_first_descends(ready);
    lemma_same_members(sorted, ready);
    if ready.len() == 1 {
        assert(sorted.contains(sorted[0]));
        assert(ready.contains(sorted[0]));
    } else if ready.len() > 1 {
        let a = sorted[0];
        let b = sorted[1];
        assert(sorted.contains(a) && sorted.contains(b));
        assert(ready.no_duplicates()) by {
            assert forall|i: int, j: int| 0 <= i < j < ready.len() implies ready[i] != ready[j] by {
                assert(ready[i].id != ready[j].id);
            }
        }
        ready.to_multiset_ensures();
        sorted.to_multiset_ensures();
        assert(a.id != b.id) by {
            let i = choose|i: int| 0 <= i < ready.len() && ready[i] == a;
            let j = choose|j: int| 0 <= j < ready.len() && ready[j] == b;
            if a == b {
                lemma_twice_counts_two(sorted, 0, 1);
                ready.lemma_multiset_has_no_duplicates();
                assert(ready.to_multiset().count(a) >= 2);
            } else if i < j {
                assert(ready[i].id != ready[j].id);
            } else {
                assert(ready[j].id != ready[i].id);
            }
        }
        assert forall|c: PeerConn| #[trigger] ready.contains(c) && c.id != a.id && c.id
            != b.id implies c.time <= b.time by {
            assert(sorted.contains(c));
            let k = choose|k: int| 0 <= k < sorted.len() && sorted[k] == c;
            assert(k >= 2);
            assert(sorted[1].time >= sorted[k].time);
        }
        assert(sorted[0].time >= sorted[1].time);
        assert(none_newer(ready, a, b));
    }
}

/// Of the connections beside `a` and `b` none is newer than `b`.
pub open spec fn none_newer(conns: Seq<PeerConn>, a: PeerConn, b: PeerConn) -> bool {
    forall|c: PeerConn| #[trigger]
        conns.contains(c) && c.id != a.id && c.id != b.id ==> c.time <= b.time
}

proof fn lemma_twice_counts_two(s: Seq<PeerConn>, i: int, j: int)
    requires
        0 <= i < j < s.len(),
        s[i] == s[j],
    ensures
        s.to_multiset().count(s[i]) >= 2,
{
    s.to_multiset_ensures();
    let rest = s.remove(j);
    assert(rest[i] == s[i]);
    assert(rest.contains(s[i]));
    rest.to_multiset_ensures();
    assert(s.to_multiset().remove(s[j]) =~= rest.to_multiset());
    assert(rest.to_multiset().count(s[i]) > 0);
}

/// After a selection exactly the favourite is selected; nothing else about the connections changes.
pub proof fn lemma_reselected(conns: Seq<PeerConn>, states: Map<u128, ConnState>)
    ensures
        reselected(conns, states).len() == conns.len(),
        forall|i: int|
            0 <= i < conns.len() ==> (#[trigger] reselected(conns, states)[i]).id == conns[i].id
                && reselected(conns, states)[i].time == conns[i].time && (reselected(
                conns,
                states,
            )[i].selected <==> favourite(conns, states) == Some(conns[i].id)),
{
}

/// The selected connection is the first one that is marked so.
pub proof fn lemma_selected_of(conns: Seq<PeerConn>)
    ensures
        match selected_of(conns) {
            Some(id) => exists|i: int|
                0 <= i < conns.len() && (#[trigger] conns[i]).selected && conns[i].id == id
                    && forall|j: int| 0 <= j < i ==> !(#[trigger] conns[j]).selected,
            None => forall|i: int| 0 <= i < conns.len() ==> !(#[trigger] conns[i]).selected,
        },
    decreases conns.len(),
{
    if conns.len() > 0 {
        let rest = conns.drop_last();
        lemma_selected_of(rest);
        match selected_of(rest) {
            Some(id) => {
                let i = choose|i: int|
                    0 <= i < rest.len() && (#[trigger] rest[i]).selected && rest[i].id == id
                        && forall|j: int| 0 <= j < i ==> !(#[trigger] rest[j]).selected;
                assert(conns[i] == rest[i]);
                assert forall|j: int| 0 <= j < i implies !(#[trigger] conns[j]).selected by {
                    assert(rest[j] == conns[j]);
                }
            },
            None => {
                assert forall|j: int| 0 <= j < rest.len() implies !(#[trigger] conns[j]).selected by {
                    assert(rest[j] == conns[j]);
                }
                assert(conns[conns.len() - 1] == conns.last());
            },
        }
    }
}

proof fn lemma_pruning(conns: Seq<PeerConn>, order: Seq<PeerConn>, max: nat, n: int)
    requires
        ids_distinct(conns),
        0 <= n <= order.len(),
    ensures
        ids_distinct(pruned(conns, order, max, n)),
        forall|c: PeerConn| #[trigger] pruned(conns, order, max, n).contains(c) ==> conns.contains(c),
        forall|c: PeerConn| #[trigger]
            conns.contains(c) && !pruned(conns, order, max, n).contains(c) ==> exists|j: int|
                0 <= j < n && (#[trigger] order[j]).id == c.id && !order[j].selected,
        conns.len() + 1 >= max ==> pruned(conns, order, max, n).len() + 1 >= max,
        conns.len() < max ==> pruned(conns, order, max, n) == conns,
    decreases n,
{
    if n > 0 {
        lemma_pruning(conns, order, max, n - 1);
        let before = pruned(conns, order, max, n - 1);
        let all = pruned(conns, order, max, n);
        lemma_without(before, order[n - 1].id);
        if all != before {
            lemma_without_distinct(before, order[n - 1].id);
        }
        assert forall|c: PeerConn| #[trigger] conns.contains(c) && !all.contains(c) implies exists|
            j: int,
        |
            0 <= j < n && (#[trigger] order[j]).id == c.id && !order[j].selected by {
            if before.contains(c) {
                assert(order[n - 1].id == c.id);
            } else {
                let j = choose|j: int|
                    0 <= j < n - 1 && (#[trigger] order[j]).id == c.id && !order[j].selected;
                assert(order[j].id == c.id);
            }
        }
    }
}

proof fn lemma_without_distinct(conns: Seq<PeerConn>, id: u128)
    requires
        ids_distinct(conns),
    ensures
        ids_distinct(without(conns, id)),
    decreases conns.len(),
{
    if conns.len() > 0 {
        let rest = conns.drop_last();
        assert forall|i: int, j: int| 0 <= i < j < rest.len() implies (#[trigger] rest[i]).id != (
        #[trigger] rest[j]).id by {
            assert(conns[i].id != conns[j].id);
        }
        lemma_without_distinct(rest, id);
        lemma_without(rest, id);
        let before = without(rest, id);
        let all = without(conns, id);
        assert forall|i: int, j: int| 0 <= i < j < all.len() implies (#[trigger] all[i]).id != (
        #[trigger] all[j]).id by {
            if j < before.len() {
                assert(before[i].id != before[j].id);
            } else {
                assert(before.contains(before[i]));
                let k = choose|k: int| 0 <= k < rest.len() && rest[k] == before[i];
                assert(conns[k].id != conns[conns.len() - 1].id);
            }
        }
    }
}

proof fn lemma_pruning_ends(conns: Seq<PeerConn>, order: Seq<PeerConn>, max: nat, n: int, m: int)
    requires
        0 <= n <= m <= order.len(),
    ensures
        forall|c: PeerConn| #[trigger]
            pruned(conns, order, max, m).contains(c) ==> pruned(conns, order, max, n).contains(c),
        pruned(conns, order, max, n).len() < max ==> pruned(conns, order, max, m) == pruned(
            conns,
            order,
            max,
            n,
        ),
    decreases m - n,
{
    if n < m {
        lemma_pruning_ends(conns, order, max, n, m - 1);
        lemma_without(pruned(conns, order, max, m - 1), order[m - 1].id);
    }
}

/// Where there are too many connections to a node the oldest are discarded, so that there is room for
/// one more, but never the selected one: of those that are not selected each that goes is as old as any
/// that stays, or older. Nothing is discarded where there are fewer than there may be.
pub proof fn lemma_oldest_discarded(state: FullMeshView, node: NodeId)
    requires
        ids_distinct(state.conns(node)),
        state.max_connected > 0,
    ensures
        ({
            let conns = state.conns(node);
            let left = state.thinned(node);
            &&& forall|c: PeerConn| #[trigger] left.contains(c) ==> conns.contains(c)
            &&& forall|c: PeerConn| #[trigger] conns.contains(c) && c.selected ==> left.contains(c)
            &&& conns.len() < state.max_connected ==> left == conns
            &&& conns.len() >= state.max_connected ==> left.len() + 1 >= state.max_connected
            &&& left.len() < state.max_connected || forall|c: PeerConn| #[trigger]
                left.contains(c) ==> c.selected
            &&& forall|gone: PeerConn, stays: PeerConn|
                conns.contains(gone) && !#[trigger] left.contains(gone) && #[trigger] left.contains(
                    stays,
                ) && !stays.selected ==> gone.time <= stays.time
        }),
{
    let conns = state.conns(node);
    let order = oldest_first(conns);
    let max = state.max_connected;
    let n = order.len() as int;
    let left = state.thinned(node);
    lemma_order_keeps_connections(conns);
    lemma_oldest_first_ascends(conns);
    lemma_same_members(order, conns);
    lemma_pruning(conns, order, max, n);
    assert forall|c: PeerConn| #[trigger] conns.contains(c) && c.selected implies left.contains(
        c,
    ) by {
        if !left.contains(c) {
            let j = choose|j: int|
                0 <= j < n && (#[trigger] order[j]).id == c.id && !order[j].selected;
            lemma_same_id_same_conn(conns, order, j, c);
        }
    }
    assert forall|c: PeerConn| #[trigger] left.contains(c) && left.len() >= max implies c.selected by {
        if !c.selected {
            assert(order.contains(c));
            let i = choose|i: int| 0 <= i < order.len() && order[i] == c;
            lemma_pruning_ends(conns, order, max, i, n);
            lemma_pruning_ends(conns, order, max, i + 1, n);
            lemma_without(pruned(conns, order, max, i), order[i].id);
        }
    }
    assert forall|gone: PeerConn, stays: PeerConn|
        conns.contains(gone) && !#[trigger] left.contains(gone) && #[trigger] left.contains(stays)
            && !stays.selected implies gone.time <= stays.time by {
        let j = choose|j: int|
            0 <= j < n && (#[trigger] order[j]).id == gone.id && !order[j].selected;
        lemma_same_id_same_conn(conns, order, j, gone);
        assert(order.contains(stays));
        let i = choose|i: int| 0 <= i < order.len() && order[i] == stays;
        if i < j {
            lemma_pruning_ends(conns, order, max, i, n);
            lemma_pruning_ends(conns, order, max, i + 1, n);
            lemma_without(pruned(conns, order, max, i), order[i].id);
            assert(pruned(conns, order, max, i).len() < max);
            assert(left == pruned(conns, order, max, i));
            lemma_pruning(conns, order, max, i);
            let k = choose|k: int|
                0 <= k < i && (#[trigger] order[k]).id == gone.id && !order[k].selected;
            assert(order[k].time <= order[i].time);
            lemma_same_id_same_conn(conns, order, k, gone);
        } else {
            assert(order[j].time <= order[i].time);
        }
    }
}

proof fn lemma_same_id_same_conn(conns: Seq<PeerConn>, order: Seq<PeerConn>, j: int, c: PeerConn)
    requires
        ids_distinct(conns),
        conns.contains(c),
        0 <= j < order.len(),
        order[j].id == c.id,
        forall|x: PeerConn| #[trigger] order.contains(x) <==> conns.contains(x),
    ensures
        order[j] == c,
{
    assert(order.contains(order[j]));
    assert(conns.contains(order[j]));
    let a = choose|a: int| 0 <= a < conns.len() && conns[a] == order[j];
    let b = choose|b: int| 0 <= b < conns.len() && conns[b] == c;
    if a < b {
        assert(conns[a].id != conns[b].id);
    }
    if b < a {
        assert(conns[b].id != conns[a].id);
    }
}

/// Another connection is opened by the end with the smaller address while fewer are up than there may
/// be, and also when there are as many and the newest is old enough; then the oldest are discarded
/// first, at either end. Otherwise all connections stay.
pub proof fn lemma_connections_renewed(
    state: FullMeshView,
    node: NodeId,
    states: Map<u128, ConnState>,
    now: Instant,
)
    requires
        state.conns(node).len() > 0,
        now >= newest(state.conns(node)),
    ensures
        ({
            let full = up(state.conns(node), states).len() >= state.max_connected;
            let old = now - newest(state.conns(node)) > state.discard_timeout;
            &&& state.opens(node, states, now) <==> state.id <= node && (!full || old)
            &&& full && old ==> state.visited(node, states, now) == state.thinned(node)
            &&& !(full && old) ==> state.visited(node, states, now) == state.conns(node)
        }),
{
}

/// A connection to a node without any is opened by the end with the smaller address.
pub proof fn lemma_first_connection_opened(
    state: FullMeshView,
    node: NodeId,
    states: Map<u128, ConnState>,
    now: Instant,
)
    requires
        state.conns(node).len() == 0,
        state.max_connected > 0,
    ensures
        state.opens(node, states, now) <==> state.id <= node,
        state.visited(node, states, now).len() == 0,
{
}

/// The connections to a node are what was last put there; those to other nodes stay.
pub proof fn lemma_connections_put(
    state: FullMeshView,
    node: NodeId,
    other: NodeId,
    conns: Seq<PeerConn>,
)
    ensures
        state.with(node, conns).conns(node) == conns,
        other != node ==> state.with(node, conns).conns(other) == state.conns(other),
        state.with(node, conns) == (FullMeshView {
            peers: state.with(node, conns).peers,
            ..state
        }),
        !state.peers.contains_key(node) ==> state.conns(node).len() == 0,
{
}

/// A packet from this node itself is ignored.
pub proof fn lemma_own_signals_ignored(state: FullMeshView, payload: SignalPayload)
    ensures
        state.on_packet(state.id, payload) == Ok::<_, SignalError>(SignalDecision::Ignore),
{
}

/// An offer is answered at the end with the larger address, as it is but for the candidate lines that
/// are not used, for the very connection that it names; the other end ignores it. What is no session
/// description is refused.
pub proof fn lemma_offers_answered(state: FullMeshView, src: NodeId, id: u128, sdp: String)
    requires
        src != state.id,
    ensures
        ({
            let decision = state.on_packet(src, SignalPayload::Offer(id, sdp));
            let sections = filtered_sections(true, sdp@, state.candidate_filter_prefix);
            if state.id < src {
                decision == Ok::<_, SignalError>(SignalDecision::Ignore)
            } else if sections is None {
                decision == Err::<SignalDecision, _>(SignalError::InvalidDescription)
            } else {
                decision == Ok::<_, SignalError>(
                    SignalDecision::AnswerOffer {
                        peer: src,
                        id,
                        sdp: sdp@,
                        sections: sections->0,
                    },
                )
            }
        }),
{
}

/// An answer completes the connection that it names, if there is one, at the end with the smaller
/// address; otherwise it is ignored.
pub proof fn lemma_answers_applied(state: FullMeshView, src: NodeId, id: u128, sdp: String)
    requires
        src != state.id,
    ensures
        ({
            let decision = state.on_packet(src, SignalPayload::Answer(id, sdp));
            let sections = filtered_sections(false, sdp@, state.candidate_filter_prefix);
            let known = exists|i: int|
                0 <= i < state.conns(src).len() && (#[trigger] state.conns(src)[i]).id == id;
            if state.id > src || !known {
                decision == Ok::<_, SignalError>(SignalDecision::Ignore)
            } else if sections is None {
                decision == Err::<SignalDecision, _>(SignalError::InvalidDescription)
            } else {
                decision == Ok::<_, SignalError>(
                    SignalDecision::ApplyAnswer {
                        peer: src,
                        id,
                        sdp: sdp@,
                        sections: sections->0,
                    },
                )
            }
        }),
{
}

/// A candidate is added, as it is, to the connection that it names, at either end, if its address is
/// used; without the connection it is ignored, and what is no candidate is refused.
pub proof fn lemma_candidates_added(state: FullMeshView, src: NodeId, id: u128, line: String)
    requires
        src != state.id,
    ensures
        ({
            let decision = state.on_packet(src, SignalPayload::Candidate(id, line));
            let known = exists|i: int|
                0 <= i < state.conns(src).len() && (#[trigger] state.conns(src)[i]).id == id;
            if !known {
                decision == Ok::<_, SignalError>(SignalDecision::Ignore)
            } else {
                match candidate_octets(line@) {
                    None => decision == Err::<SignalDecision, _>(SignalError::InvalidCandidate),
                    Some(octets) => if is_allowed(octets, state.candidate_filter_prefix) {
                        decision == Ok::<_, SignalError>(
                            SignalDecision::AddCandidate { peer: src, id, line: line@ },
                        )
                    } else {
                        decision == Ok::<_, SignalError>(SignalDecision::Ignore)
                    },
                }
            }
        }),
{
}

/// A connection is over once it is lost, has failed or is closed, and not before.
pub proof fn lemma_over(state: ConnState)
    ensures
        is_over(state) <==> state == ConnState::Disconnected || state == ConnState::Failed || state
            == ConnState::Closed,
{
}

/// What is told about a connection: its id, whether it is selected, what is seen of it, and how long ago
/// it was made in whole milliseconds.
pub proof fn lemma_conn_told(conn: PeerConn, seen: ConnObservation, now: Instant)
    requires
        now >= conn.time,
    ensures
        conn_entry(conn, seen, now).id == conn.id,
        conn_entry(conn, seen, now).conn.selected == conn.selected,
        conn_entry(conn, seen, now).conn.state == seen.state,
        conn_entry(conn, seen, now).conn.selected_candidate == seen.selected_candidate,
        conn_entry(conn, seen, now).conn.elapsed_ms * 1_000_000 <= now - conn.time,
        now - conn.time < conn_entry(conn, seen, now).conn.elapsed_ms * 1_000_000 + 1_000_000,
{
}

/// Each connection of which something is seen is told about, and no other.
pub proof fn lemma_seen_conns_told(
    conns: Seq<PeerConn>,
    seen: Map<u128, ConnObservation>,
    now: Instant,
)
    ensures
        forall|i: int|
            0 <= i < conns.len() && seen.contains_key((#[trigger] conns[i]).id) ==> conn_entries(
                conns,
                seen,
                now,
            ).contains(conn_entry(conns[i], seen[conns[i].id], now)),
        forall|k: int|
            0 <= k < conn_entries(conns, seen, now).len() ==> exists|i: int|
                0 <= i < conns.len() && seen.contains_key((#[trigger] conns[i]).id)
                    && #[trigger] conn_entries(conns, seen, now)[k] == conn_entry(
                    conns[i],
                    seen[conns[i].id],
                    now,
                ),
        conn_entries(conns, seen, now).len() <= conns.len(),
        (forall|i: int| 0 <= i < conns.len() ==> seen.contains_key((#[trigger] conns[i]).id))
            ==> conn_entries(conns, seen, now).len() == conns.len(),
    decreases conns.len(),
{
    if conns.len() > 0 {
        let rest = conns.drop_last();
        let before = conn_entries(rest, seen, now);
        let all = conn_entries(conns, seen, now);
        lemma_seen_conns_told(rest, seen, now);
        assert forall|i: int|
            0 <= i < conns.len() && seen.contains_key((#[trigger] conns[i]).id) implies all.contains(
            conn_entry(conns[i], seen[conns[i].id], now),
        ) by {
            let e = conn_entry(conns[i], seen[conns[i].id], now);
            if i < rest.len() {
                assert(rest[i] == conns[i]);
                assert(before.contains(e));
                let k = choose|k: int| 0 <= k < before.len() && before[k] == e;
                assert(all[k] == e);
            } else {
                assert(all[before.len() as int] == e);
            }
        }
        assert forall|k: int| 0 <= k < all.len() implies exists|i: int|
            0 <= i < conns.len() && seen.contains_key((#[trigger] conns[i]).id) && #[trigger] all[k]
                == conn_entry(conns[i], seen[conns[i].id], now) by {
            if k < before.len() {
                assert(all[k] == before[k]);
                let i = choose|i: int|
                    0 <= i < rest.len() && seen.contains_key((#[trigger] rest[i]).id) && before[k]
                        == conn_entry(rest[i], seen[rest[i].id], now);
                assert(conns[i] == rest[i]);
            } else {
                assert(seen.contains_key(conns[conns.len() - 1].id));
            }
        }
        if forall|i: int| 0 <= i < conns.len() ==> seen.contains_key((#[trigger] conns[i]).id) {
            assert forall|i: int| 0 <= i < rest.len() implies seen.contains_key(
                (#[trigger] rest[i]).id,
            ) by {
                assert(conns[i] == rest[i]);
            }
            assert(seen.contains_key(conns[conns.len() - 1].id));
        }
    }
}

} // verus!
