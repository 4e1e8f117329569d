//! What holds of the full mesh with one connection to each node.

use vstd::prelude::*;
use crate::crypto::{agreed_key, EcdhKey, PublicKey};
use crate::packet::{Instant, NodeId};
use super::ConnectionState;
use super::candidates::described_sections;
use super::fm_ice::{
    needs_key, new_connection, offered_key, parameters_of, peer_report, session_key,
    FullMeshAction, FullMeshConnection, FullMeshError, FullMeshIceView, FullMeshPayload,
    Observation, Outcome, PeerObservation,
};
use super::frame::FullMeshKey;
use super::registry::{ConnectionType, Peer};

verus! {

/// A packet was taken without any effect.
pub open spec fn is_ignored(state: FullMeshIceView, outcome: Outcome) -> bool {
    outcome matches Ok((after, actions)) && after == state && actions.len() == 0
}

/// A session key is the key on which the pair and the public key agree, with the index it is for.
pub proof fn lemma_session_key(ecdh_key: EcdhKey, public_key: PublicKey, index: bool)
    ensures
        match session_key(ecdh_key, public_key, index) {
            Some(key) => key.index == index && agreed_key(ecdh_key.secret(), public_key.bytes@)
                == Some(key.key),
            None => agreed_key(ecdh_key.secret(), public_key.bytes@) is None,
        },
{
}

/// The answering end makes its end with the very parameters, candidates and public key that it was
/// told, under the key with index zero; nothing is held of it yet. What is no public key is refused.
pub proof fn lemma_parameters_accepted(
    state: FullMeshIceView,
    src: NodeId,
    ufrag: String,
    pwd: String,
    candidates: Vec<String>,
    public_key: PublicKey,
    fresh: EcdhKey,
    now: Instant,
)
    requires
        state.id > src,
    ensures
        ({
            let shake = FullMeshPayload::Shake { ufrag, pwd, candidates, public_key };
            let outcome = state.on_packet(src, shake, Some(fresh), now);
            match agreed_key(fresh.secret(), public_key.bytes@) {
                None => outcome == Err::<(FullMeshIceView, Seq<FullMeshAction>), _>(
                    FullMeshError::InvalidPublicKey,
                ),
                Some(agreed) => {
                    &&& outcome is Ok
                    &&& (outcome->Ok_0).0 == state
                    &&& (outcome->Ok_0).1.len() == 1
                    &&& (outcome->Ok_0).1[0] matches FullMeshAction::AcceptIce {
                        peer,
                        ufrag: u,
                        pwd: p,
                        candidates: c,
                        ecdh_key,
                        key,
                    }
                    &&& peer == src && u == ufrag && p == pwd && c == candidates
                    &&& ecdh_key == fresh && key.key == agreed && !key.index
                },
            }
        }),
{
}

/// The opening end starts with the very parameters and candidates that came back, under the key with
/// index zero on which its own key pair agrees. Where it has opened nothing, or something else than an
/// ICE connection, nothing starts.
pub proof fn lemma_parameters_started(
    state: FullMeshIceView,
    src: NodeId,
    ufrag: String,
    pwd: String,
    candidates: Vec<String>,
    public_key: PublicKey,
    fresh: Option<EcdhKey>,
    now: Instant,
)
    requires
        state.id < src,
    ensures
        ({
            let shake = FullMeshPayload::Shake { ufrag, pwd, candidates, public_key };
            let outcome = state.on_packet(src, shake, fresh, now);
            let conn = state.connections[src];
            if !state.connections.contains_key(src) {
                is_ignored(state, outcome)
            } else {
                match agreed_key(conn.ecdh_key.secret(), public_key.bytes@) {
                    None => outcome == Err::<(FullMeshIceView, Seq<FullMeshAction>), _>(
                        FullMeshError::InvalidPublicKey,
                    ),
                    Some(agreed) => {
                        &&& outcome is Ok
                        &&& only_changes(state, (outcome->Ok_0).0, src)
                        &&& (outcome->Ok_0).0.connections[src] == (FullMeshConnection {
                            last_rekey: now,
                            ..conn
                        })
                        &&& conn.kind is DataChannel ==> (outcome->Ok_0).1.len() == 0
                        &&& conn.kind is Ice ==> (outcome->Ok_0).1.len() == 1
                        &&& conn.kind is Ice ==> ((outcome->Ok_0).1[0]
                            matches FullMeshAction::StartIce {
                            peer,
                            ufrag: u,
                            pwd: p,
                            candidates: c,
                            key,
                        } && peer == src && u == ufrag && p == pwd && c == candidates && key.key
                            == agreed && !key.index)
                    },
                }
            }
        }),
{
}

/// What one end tells as its parameters is what the other end starts with: nothing is swapped or lost
/// on the way, whichever end tells them.
pub proof fn lemma_parameters_survive(
    teller: EcdhKey,
    ufrag: String,
    pwd: String,
    candidates: Vec<String>,
    listener: FullMeshIceView,
    src: NodeId,
    fresh: EcdhKey,
    now: Instant,
    k: int,
)
    requires
        listener.on_packet(
            src,
            parameters_of(ufrag, pwd, candidates, teller),
            Some(fresh),
            now,
        ) matches Ok((after, actions)) && 0 <= k < actions.len(),
    ensures
        ({
            let told = parameters_of(ufrag, pwd, candidates, teller);
            let action = (listener.on_packet(src, told, Some(fresh), now)->Ok_0).1[k];
            ||| (action matches FullMeshAction::AcceptIce {
                peer,
                ufrag: u,
                pwd: p,
                candidates: c,
                ..
            } && peer == src && u == ufrag && p == pwd && c == candidates)
            ||| (action matches FullMeshAction::StartIce {
                peer,
                ufrag: u,
                pwd: p,
                candidates: c,
                ..
            } && peer == src && u == ufrag && p == pwd && c == candidates)
        }),
        offered_key(parameters_of(ufrag, pwd, candidates, teller)) == Some(
            (teller.public(), false),
        ),
{
}

/// Nothing changes but the connection to `peer`, which stays one of its kind.
pub open spec fn only_changes(
    before: FullMeshIceView,
    after: FullMeshIceView,
    peer: NodeId,
) -> bool {
    &&& after == (FullMeshIceView { connections: after.connections, ..before })
    &&& after.connections.dom() == before.connections.dom().insert(peer)
    &&& forall|n: NodeId| #[trigger]
        before.connections.contains_key(n) && n != peer ==> after.connections[n]
            == before.connections[n]
}

/// The end with the larger address answers a request for a new key: it opens packets with the new key
/// from now on, and tells its own new public key with the index that was asked for. It goes on sealing
/// under the key before. What is no public key is refused, and without an ICE connection the request is
/// ignored.
pub proof fn lemma_rekey_answered(
    state: FullMeshIceView,
    src: NodeId,
    index: bool,
    public_key: PublicKey,
    fresh: EcdhKey,
    now: Instant,
)
    requires
        state.id > src,
    ensures
        ({
            let request = FullMeshPayload::Rekey { index, public_key };
            let outcome = state.on_packet(src, request, Some(fresh), now);
            let conn = state.connections[src];
            if !(state.connections.contains_key(src) && conn.kind is Ice) {
                is_ignored(state, outcome)
            } else {
                match agreed_key(fresh.secret(), public_key.bytes@) {
                    None => outcome == Err::<(FullMeshIceView, Seq<FullMeshAction>), _>(
                        FullMeshError::InvalidPublicKey,
                    ),
                    Some(agreed) => {
                        let key = FullMeshKey { index, key: agreed };
                        &&& outcome is Ok
                        &&& only_changes(state, (outcome->Ok_0).0, src)
                        &&& (outcome->Ok_0).0.connections[src] == (FullMeshConnection {
                            ecdh_key: fresh,
                            last_rekey: now,
                            ..conn
                        })
                        &&& (outcome->Ok_0).1 == seq![
                            FullMeshAction::SetRecvKey { peer: src, key },
                            FullMeshAction::Send {
                                dst: src,
                                payload: FullMeshPayload::Rekey {
                                    index,
                                    public_key: fresh.public(),
                                },
                            },
                        ]
                    },
                }
            }
        }),
{
}

/// The end with the smaller address takes the answer to its request: it opens and seals packets with the
/// new key from now on, and confirms that with its own public key and the same index.
pub proof fn lemma_rekey_confirmed(
    state: FullMeshIceView,
    src: NodeId,
    index: bool,
    public_key: PublicKey,
    fresh: Option<EcdhKey>,
    now: Instant,
)
    requires
        state.id < src,
    ensures
        ({
            let answer = FullMeshPayload::Rekey { index, public_key };
            let outcome = state.on_packet(src, answer, fresh, now);
            let conn = state.connections[src];
            if !(state.connections.contains_key(src) && conn.kind is Ice) {
                is_ignored(state, outcome)
            } else {
                match agreed_key(conn.ecdh_key.secret(), public_key.bytes@) {
                    None => outcome == Err::<(FullMeshIceView, Seq<FullMeshAction>), _>(
                        FullMeshError::InvalidPublicKey,
                    ),
                    Some(agreed) => {
                        let key = FullMeshKey { index, key: agreed };
                        &&& outcome is Ok
                        &&& only_changes(state, (outcome->Ok_0).0, src)
                        &&& (outcome->Ok_0).0.connections[src] == (FullMeshConnection {
                            last_rekey: now,
                            send_key: Some(key),
                            ..conn
                        })
                        &&& (outcome->Ok_0).1 == seq![
                            FullMeshAction::SetRecvKey { peer: src, key },
                            FullMeshAction::SetSendKey { peer: src, key },
                            FullMeshAction::Send {
                                dst: src,
                                payload: FullMeshPayload::RekeyConfirm {
                                    index,
                                    public_key: conn.ecdh_key.public(),
                                },
                            },
                        ]
                    },
                }
            }
        }),
{
}

/// A confirmation makes the end that takes it seal packets with the new key. Nothing else changes, least
/// of all when the next change of keys is due.
pub proof fn lemma_confirmation_taken(
    state: FullMeshIceView,
    src: NodeId,
    index: bool,
    public_key: PublicKey,
    fresh: Option<EcdhKey>,
    now: Instant,
)
    requires
        state.id != src,
    ensures
        ({
            let confirmation = FullMeshPayload::RekeyConfirm { index, public_key };
            let outcome = state.on_packet(src, confirmation, fresh, now);
            let conn = state.connections[src];
            if !(state.connections.contains_key(src) && conn.kind is Ice) {
                is_ignored(state, outcome)
            } else {
                match agreed_key(conn.ecdh_key.secret(), public_key.bytes@) {
                    None => outcome == Err::<(FullMeshIceView, Seq<FullMeshAction>), _>(
                        FullMeshError::InvalidPublicKey,
                    ),
                    Some(agreed) => {
                        let key = FullMeshKey { index, key: agreed };
                        &&& outcome is Ok
                        &&& only_changes(state, (outcome->Ok_0).0, src)
                        &&& (outcome->Ok_0).0.connections[src] == (FullMeshConnection {
                            send_key: Some(key),
                            ..conn
                        })
                        &&& (outcome->Ok_0).1 == seq![
                            FullMeshAction::SetSendKey { peer: src, key },
                        ]
                    },
                }
            }
        }),
{
}

/// The offer of a data channel is answered as it is, from whichever node it comes; what is no session
/// description is refused. Nothing is held of the channel yet.
pub proof fn lemma_offer_answered(
    state: FullMeshIceView,
    src: NodeId,
    sdp: String,
    candidates: Vec<String>,
    fresh: Option<EcdhKey>,
    now: Instant,
)
    requires
        state.id != src,
    ensures
        ({
            let outcome = state.on_packet(
                src,
                FullMeshPayload::Offer { sdp, candidates },
                fresh,
                now,
            );
            match described_sections(true, sdp@) {
                None => outcome == Err::<(FullMeshIceView, Seq<FullMeshAction>), _>(
                    FullMeshError::InvalidDescription,
                ),
                Some(_) => outcome matches Ok((after, actions)) && after == state && actions == seq![
                    FullMeshAction::AnswerOffer { peer: src, sdp, candidates },
                ],
            }
        }),
{
}

/// The answer to an offer completes the data channel to the node it comes from, as it is; without one it
/// is ignored, and what is no session description is refused.
pub proof fn lemma_answer_applied(
    state: FullMeshIceView,
    src: NodeId,
    sdp: String,
    candidates: Vec<String>,
    fresh: Option<EcdhKey>,
    now: Instant,
)
    requires
        state.id != src,
    ensures
        ({
            let outcome = state.on_packet(
                src,
                FullMeshPayload::Answer { sdp, candidates },
                fresh,
                now,
            );
            if !(state.connections.contains_key(src)
                && state.connections[src].kind is DataChannel) {
                is_ignored(state, outcome)
            } else {
                match described_sections(false, sdp@) {
                    None => outcome == Err::<(FullMeshIceView, Seq<FullMeshAction>), _>(
                        FullMeshError::InvalidDescription,
                    ),
                    Some(_) => outcome matches Ok((after, actions)) && after == state && actions
                        == seq![FullMeshAction::ApplyAnswer { peer: src, sdp, candidates }],
                }
            }
        }),
{
}

/// A new key pair is made where it matters, and only there: otherwise it makes no difference which one
/// is at hand.
pub proof fn lemma_key_made_where_it_matters(
    state: FullMeshIceView,
    src: NodeId,
    payload: FullMeshPayload,
    a: Option<EcdhKey>,
    b: Option<EcdhKey>,
    now: Instant,
)
    requires
        !needs_key(state.id, state.connections, src, payload),
    ensures
        state.on_packet(src, payload, a, now) == state.on_packet(src, payload, b, now),
{
}

/// A new key pair is needed to answer a request to open a connection, and a request for a new key on an
/// ICE connection, at the end with the larger address.
pub proof fn lemma_key_needed(state: FullMeshIceView, src: NodeId, payload: FullMeshPayload)
    ensures
        needs_key(state.id, state.connections, src, payload) <==> src < state.id && (
        payload is Shake || (payload is Rekey && state.connections.contains_key(src)
            && state.connections[src].kind is Ice)),
{
}

/// A connection is kept if and only if it is not closed and something has been received over it since
/// the last tick, or lately enough before.
pub proof fn lemma_connections_swept(
    state: FullMeshIceView,
    seen: Map<NodeId, Observation>,
    now: Instant,
    n: NodeId,
)
    requires
        state.connections.contains_key(n),
        state.connection_timeout > 0,
    ensures
        ({
            let conn = state.connections[n];
            let after = state.swept(seen, now);
            let heard = seen[n].received != conn.last_received;
            let lately = now < conn.last_received_at || now - conn.last_received_at
                < state.connection_timeout;
            &&& after.connections.contains_key(n) <==> seen[n].status != ConnectionState::Closed && (
            heard || lately)
            &&& after.connections.contains_key(n) && !heard ==> after.connections[n] == conn
            &&& after.connections.contains_key(n) && heard ==> after.connections[n] == (
            FullMeshConnection {
                last_received: seen[n].received,
                last_received_at: now,
                ..conn
            })
            &&& state.is_lost(n, seen, now) <==> seen[n].status != ConnectionState::Closed && !heard
                && !lately && conn.once_connected
            &&& after == (FullMeshIceView { connections: after.connections, ..state })
        }),
{
}

/// A tick makes no connection.
pub proof fn lemma_sweep_makes_nothing(
    state: FullMeshIceView,
    seen: Map<NodeId, Observation>,
    now: Instant,
    n: NodeId,
)
    requires
        !state.connections.contains_key(n),
    ensures
        !state.swept(seen, now).connections.contains_key(n),
        !state.is_lost(n, seen, now),
        !state.is_new(n, seen),
        !state.rekey_due(n, seen, now),
{
}

/// A connection is handed to the device once, when it is up.
pub proof fn lemma_handed_to_device_once(
    state: FullMeshIceView,
    seen: Map<NodeId, Observation>,
    n: NodeId,
)
    requires
        state.connections.contains_key(n),
    ensures
        state.is_new(n, seen) <==> seen[n].status == ConnectionState::Connected
            && !state.connections[n].once_connected,
        ({
            let conn = FullMeshConnection { once_connected: true, ..state.connections[n] };
            !state.with(n, conn).is_new(n, seen)
        }),
{
}

/// A new key is due at the end with the smaller address on an ICE connection that is up and has a key,
/// whichever index that has, once the time for it has passed since the last change; and never otherwise.
pub proof fn lemma_rekey_due(
    state: FullMeshIceView,
    seen: Map<NodeId, Observation>,
    now: Instant,
    n: NodeId,
)
    requires
        state.connections.contains_key(n),
    ensures
        state.rekey_due(n, seen, now) <==> {
            let conn = state.connections[n];
            &&& state.id <= n
            &&& conn.kind == ConnectionType::Ice
            &&& conn.send_key != None::<FullMeshKey>
            &&& seen[n].status == ConnectionState::Connected
            &&& now - conn.last_rekey >= state.rekey_timeout || state.rekey_timeout == 0
        },
{
}

/// Whether a new key is due does not depend on the key in use, nor on the key pair.
pub proof fn lemma_rekey_due_for_any_key(
    state: FullMeshIceView,
    seen: Map<NodeId, Observation>,
    now: Instant,
    n: NodeId,
    key: FullMeshKey,
    other: FullMeshKey,
    ecdh_key: EcdhKey,
)
    requires
        state.connections.contains_key(n),
    ensures
        ({
            let conn = state.connections[n];
            let a = state.with(n, FullMeshConnection { send_key: Some(key), ..conn });
            let b = state.with(n, FullMeshConnection { send_key: Some(other), ecdh_key, ..conn });
            a.rekey_due(n, seen, now) == b.rekey_due(n, seen, now)
        }),
{
}

/// When the time for a new key has come at both ends of an ICE connection that is up, exactly one of
/// them asks for it, whichever keys are in use.
pub proof fn lemma_exactly_one_end_rekeys(
    a: FullMeshIceView,
    b: FullMeshIceView,
    seen_by_a: Map<NodeId, Observation>,
    seen_by_b: Map<NodeId, Observation>,
    now: Instant,
)
    requires
        a.id != b.id,
        a.connections.contains_key(b.id),
        b.connections.contains_key(a.id),
        a.connections[b.id].kind is Ice,
        b.connections[a.id].kind is Ice,
        a.connections[b.id].send_key is Some,
        b.connections[a.id].send_key is Some,
        seen_by_a[b.id].status is Connected,
        seen_by_b[a.id].status is Connected,
        now >= a.connections[b.id].last_rekey + a.rekey_timeout,
        now >= b.connections[a.id].last_rekey + b.rekey_timeout,
    ensures
        a.rekey_due(b.id, seen_by_a, now) != b.rekey_due(a.id, seen_by_b, now),
        a.id < b.id ==> a.rekey_due(b.id, seen_by_a, now),
{
}

/// A request for a new key goes to the node at the other end, under the other index than that of the key
/// in use, with the public key of the new pair; so the indices alternate from one change to the next.
pub proof fn lemma_rekey_alternates(
    state: FullMeshIceView,
    n: NodeId,
    ecdh_key: EcdhKey,
    index: bool,
    key: u128,
)
    requires
        state.connections.contains_key(n),
        state.connections[n].send_key == Some(FullMeshKey { index, key }),
    ensures
        state.rekey_request(n, ecdh_key) matches FullMeshAction::Send { dst, payload } && dst == n
            && (payload matches FullMeshPayload::Rekey { index: asked, public_key } && asked
            != index && public_key == ecdh_key.public()),
{
}

/// Once a change of keys is complete the next one is not due before its time has passed again, and then
/// it is.
pub proof fn lemma_rekey_recurs(
    state: FullMeshIceView,
    seen: Map<NodeId, Observation>,
    src: NodeId,
    index: bool,
    public_key: PublicKey,
    now: Instant,
    later: Instant,
)
    requires
        state.id < src,
        state.connections.contains_key(src),
        state.connections[src].kind is Ice,
        seen[src].status is Connected,
        agreed_key(state.connections[src].ecdh_key.secret(), public_key.bytes@) is Some,
        now <= later,
    ensures
        ({
            let answer = FullMeshPayload::Rekey { index, public_key };
            let after = (state.on_packet(src, answer, None, now)->Ok_0).0;
            after.rekey_due(src, seen, later) <==> later - now >= state.rekey_timeout
        }),
{
}

/// A connection is opened to each announced node with a larger or the same address to which there is
/// none, of the kind that the node takes, and to no other.
pub proof fn lemma_connections_opened(state: FullMeshIceView, peers: Seq<Peer>, n: NodeId)
    ensures
        state.open_actions(peers).contains(FullMeshAction::OpenIce { peer: n }) <==> state.id <= n
            && !state.connections.contains_key(n) && exists|k: int|
            0 <= k < peers.len() && (#[trigger] peers[k]).id == n && peers[k].ice,
        state.open_actions(peers).contains(FullMeshAction::OpenChannel { peer: n }) <==> state.id
            <= n && !state.connections.contains_key(n) && exists|k: int|
            0 <= k < peers.len() && (#[trigger] peers[k]).id == n && !peers[k].ice,
        forall|k: int|
            0 <= k < state.open_actions(peers).len() ==> (#[trigger] state.open_actions(
                peers,
            )[k]) is OpenIce || state.open_actions(peers)[k] is OpenChannel,
        state.open_actions(peers).len() <= peers.len(),
    decreases peers.len(),
{
    if peers.len() > 0 {
        let rest = peers.drop_last();
        let last = peers.len() - 1;
        let before = state.open_actions(rest);
        let all = state.open_actions(peers);
        lemma_connections_opened(state, rest, n);
        let ice = FullMeshAction::OpenIce { peer: n };
        let channel = FullMeshAction::OpenChannel { peer: n };
        lemma_action_pushed(before, all, ice);
        lemma_action_pushed(before, all, channel);
        assert(peers[last] == peers.last());
        assert forall|k: int| 0 <= k < rest.len() implies rest[k] == #[trigger] peers[k] by {}
        if exists|k: int| 0 <= k < rest.len() && (#[trigger] rest[k]).id == n && rest[k].ice {
            let k = choose|k: int| 0 <= k < rest.len() && (#[trigger] rest[k]).id == n && rest[k].ice;
            assert(peers[k].id == n && peers[k].ice);
        }
        if exists|k: int| 0 <= k < rest.len() && (#[trigger] rest[k]).id == n && !rest[k].ice {
            let k = choose|k: int|
                0 <= k < rest.len() && (#[trigger] rest[k]).id == n && !rest[k].ice;
            assert(peers[k].id == n && !peers[k].ice);
        }
        if exists|k: int| 0 <= k < peers.len() && (#[trigger] peers[k]).id == n && peers[k].ice {
            let k = choose|k: int|
                0 <= k < peers.len() && (#[trigger] peers[k]).id == n && peers[k].ice;
            if k < last {
                assert(rest[k].id == n && rest[k].ice);
            }
        }
        if exists|k: int| 0 <= k < peers.len() && (#[trigger] peers[k]).id == n && !peers[k].ice {
            let k = choose|k: int|
                0 <= k < peers.len() && (#[trigger] peers[k]).id == n && !peers[k].ice;
            if k < last {
                assert(rest[k].id == n && !rest[k].ice);
            }
        }
    }
}

proof fn lemma_action_pushed(
    before: Seq<FullMeshAction>,
    after: Seq<FullMeshAction>,
    a: FullMeshAction,
)
    requires
        after == before || (after.len() > 0 && after == before.push(after.last())),
    ensures
        after.contains(a) <==> before.contains(a) || (after != before && after.last() == a),
{
    if before.contains(a) {
        let k = choose|k: int| 0 <= k < before.len() && before[k] == a;
        assert(after[k] == a);
    }
    if after.contains(a) {
        let k = choose|k: int| 0 <= k < after.len() && after[k] == a;
        if k < before.len() {
            assert(before[k] == a);
        }
    }
    if after != before {
        assert(after[after.len() - 1] == after.last());
    }
}

/// A connection that has just been made counts as heard from and as having its key from now on; nothing
/// has been received over it, and the device does not know it.
pub proof fn lemma_new_connection(
    kind: ConnectionType,
    ecdh_key: EcdhKey,
    send_key: Option<FullMeshKey>,
    now: Instant,
)
    ensures
        new_connection(kind, ecdh_key, send_key, now).kind == kind,
        new_connection(kind, ecdh_key, send_key, now).ecdh_key == ecdh_key,
        new_connection(kind, ecdh_key, send_key, now).send_key == send_key,
        new_connection(kind, ecdh_key, send_key, now).last_received == 0,
        new_connection(kind, ecdh_key, send_key, now).last_received_at == now,
        new_connection(kind, ecdh_key, send_key, now).last_rekey == now,
        !new_connection(kind, ecdh_key, send_key, now).once_connected,
{
}

/// Taking a connection up replaces the one to that node, if there is one, and leaves all others.
pub proof fn lemma_connection_replaced(
    state: FullMeshIceView,
    peer: NodeId,
    connection: FullMeshConnection,
)
    ensures
        only_changes(state, state.with(peer, connection), peer),
        state.with(peer, connection).connections[peer] == connection,
{
}

/// What is told about a connection is what was seen of it.
pub proof fn lemma_report_is_faithful(node_id: NodeId, seen: PeerObservation)
    ensures
        peer_report(node_id, seen).node_id == node_id,
        peer_report(node_id, seen).sent == seen.sent,
        peer_report(node_id, seen).received == seen.received,
        peer_report(node_id, seen).selected_candidate == seen.selected_candidate,
        seen.status is Connecting <==> peer_report(node_id, seen).state is Connecting,
        seen.status is Connected <==> peer_report(node_id, seen).state is Connected,
        seen.status is Closed <==> peer_report(node_id, seen).state is Closed,
{
}

/// Where no time is given to connections none is kept.
pub proof fn lemma_no_time_given(state: FullMeshIceView, seen: Map<NodeId, Observation>, now: Instant)
    requires
        state.connection_timeout == 0,
    ensures
        state.swept(seen, now).connections.dom().is_empty(),
        forall|n: NodeId| #[trigger]
            state.is_lost(n, seen, now) <==> state.connections.contains_key(n) && seen[n].status
                != ConnectionState::Closed && state.connections[n].once_connected,
{
    assert(state.swept(seen, now).connections.dom() =~= Set::empty());
}

/// A packet of this node itself changes nothing and causes nothing, whatever it holds.
pub proof fn lemma_own_packets_ignored(
    state: FullMeshIceView,
    payload: FullMeshPayload,
    fresh: Option<EcdhKey>,
    now: Instant,
)
    ensures
        is_ignored(state, state.on_packet(state.id, payload, fresh, now)),
{
}

/// A key is agreed on where a public key arrives from another node. The end with the larger address
/// does so with a new key pair, unless it is told that a change of keys is complete, and the other one
/// with that of the connection, which it has to have. Keys are changed on ICE connections only.
pub proof fn lemma_key_pair_in_use(
    state: FullMeshIceView,
    src: NodeId,
    payload: FullMeshPayload,
    fresh: EcdhKey,
)
    ensures
        ({
            let own = state.own_key(src, payload, Some(fresh));
            let known = state.connections.contains_key(src);
            let ice = known && state.connections[src].kind is Ice;
            let held = Some(state.connections[src].ecdh_key);
            &&& src == state.id ==> own is None
            &&& payload is Shake && src < state.id ==> own == Some(fresh)
            &&& payload is Shake && src > state.id && known ==> own == held
            &&& payload is Shake && src > state.id && !known ==> own is None
            &&& payload is Rekey && src < state.id && ice ==> own == Some(fresh)
            &&& payload is Rekey && src > state.id && ice ==> own == held
            &&& payload is RekeyConfirm && src != state.id && ice ==> own == held
            &&& (payload is Rekey || payload is RekeyConfirm) && !ice ==> own is None
            &&& payload is Offer || payload is Answer ==> own is None
        }),
{
}

/// An opening end that has been started takes up its key in both directions, receiving first, so that
/// nothing sealed with it arrives before it can be opened; it keeps everything else. Without a
/// connection nothing is done.
pub proof fn lemma_started(state: FullMeshIceView, peer: NodeId, key: FullMeshKey, n: NodeId)
    requires
        n != peer,
    ensures
        ({
            let (after, actions) = state.on_started(peer, key);
            &&& !state.connections.contains_key(peer) ==> after == state && actions.len() == 0
            &&& state.connections.contains_key(peer) ==> {
                &&& after.connections.contains_key(peer)
                &&& after.connections[peer].send_key == Some(key)
                &&& FullMeshConnection {
                    send_key: state.connections[peer].send_key,
                    ..after.connections[peer]
                } == state.connections[peer]
                &&& actions.len() == 2
                &&& actions[0] == (FullMeshAction::SetRecvKey { peer, key })
                &&& actions[1] == (FullMeshAction::SetSendKey { peer, key })
            }
            &&& after.connections.contains_key(n) <==> state.connections.contains_key(n)
            &&& state.connections.contains_key(n) ==> after.connections[n] == state.connections[n]
            &&& after == (FullMeshIceView { connections: after.connections, ..state })
        }),
{
}

/// A connection that has been handed to the device is not handed to it again, and nothing else changes.
pub proof fn lemma_handed_over(
    state: FullMeshIceView,
    seen: Map<NodeId, Observation>,
    n: NodeId,
    other: NodeId,
)
    requires
        state.is_new(n, seen),
        other != n,
    ensures
        ({
            let after = state.handed_over(n);
            &&& !after.is_new(n, seen)
            &&& after.is_new(other, seen) == state.is_new(other, seen)
            &&& after.connections.contains_key(n)
            &&& FullMeshConnection { once_connected: false, ..after.connections[n] }
                == state.connections[n]
            &&& after.connections.contains_key(other) <==> state.connections.contains_key(other)
            &&& state.connections.contains_key(other) ==> after.connections[other]
                == state.connections[other]
            &&& after == (FullMeshIceView { connections: after.connections, ..state })
        }),
{
}

} // verus!
