//! The full mesh, with one and with several connections to each node.

use std::collections::HashMap;

use cryonet::addr::Prefix;
use cryonet::crypto::{EcdhKey, PublicKey};
use cryonet::fullmesh::fm_ice::{
    FullMeshAction, FullMeshError, FullMeshIce, FullMeshPayload, Observation, PeerObservation,
};
use cryonet::fullmesh::frame::FullMeshKey;
use cryonet::fullmesh::peers::{
    check_over, connected, find_favourite, keep, new_conn_id, prune, remove_id, reselect,
    sort_newest_first, sort_oldest_first, ConnObservation, FullMesh, PeerConn, SignalAction, SignalError,
    SignalPayload,
};
use cryonet::fullmesh::registry::{ConnectionType, Peer};
use cryonet::fullmesh::ConnectionState;
use cryonet::uapi::ConnState;

const SECOND: u64 = 1_000_000_000;

fn text(s: &str) -> String {
    s.to_string()
}

/// A session description with one section, in which the last line may be a further attribute.
fn description(line: &str) -> String {
    let head = "v=0\r\no=- 1 1 IN IP4 0.0.0.0\r\ns=-\r\nt=0 0\r\n";
    format!("{head}m=application 9 UDP/DTLS/SCTP webrtc-datachannel\r\na=mid:0\r\n{line}\r\n")
}

fn shake(key: PublicKey) -> FullMeshPayload {
    FullMeshPayload::Shake {
        ufrag: text("ufrag"),
        pwd: text("pwd"),
        candidates: vec![text("candidate")],
        public_key: key,
    }
}

fn only(mut actions: Vec<FullMeshAction>) -> FullMeshAction {
    assert_eq!(actions.len(), 1);
    actions.remove(0)
}

fn sent_payload(actions: &mut Vec<FullMeshAction>, to: u32) -> FullMeshPayload {
    match actions.pop() {
        Some(FullMeshAction::Send { dst, payload }) => {
            assert_eq!(dst, to);
            payload
        }
        _ => panic!("nothing sent"),
    }
}

/// Makes the connection between nodes 1 and 2, and gives the two ends and their key.
fn connected_pair() -> (FullMeshIce, FullMeshIce, FullMeshKey) {
    let mut low = FullMeshIce::new(1);
    let mut high = FullMeshIce::new(2);
    let peers = vec![Peer { id: 2, ice: true }];
    assert!(matches!(only(low.peers_to_open(&peers)), FullMeshAction::OpenIce { peer: 2 }));
    let mut opened = low.ice_opened(2, text("u1"), text("p1"), vec![text("c1")], 0);
    let offer = sent_payload(&mut opened, 2);
    let (ecdh_key, key) = match only(high.handle_packet(Some((1, offer)), 1).ok().unwrap()) {
        FullMeshAction::AcceptIce { peer: 1, ufrag, pwd, candidates, ecdh_key, key } => {
            assert_eq!((ufrag, pwd, candidates), (text("u1"), text("p1"), vec![text("c1")]));
            (ecdh_key, key)
        }
        _ => panic!("not accepted"),
    };
    let mut accepted = high.ice_accepted(1, ecdh_key, key, text("u2"), text("p2"), vec![], 1);
    let answer = sent_payload(&mut accepted, 1);
    assert!(matches!(accepted[0], FullMeshAction::SetRecvKey { peer: 1, key: k } if k == key));
    assert!(matches!(accepted[1], FullMeshAction::SetSendKey { peer: 1, key: k } if k == key));
    let agreed = match only(low.handle_packet(Some((2, answer)), 2).ok().unwrap()) {
        FullMeshAction::StartIce { peer: 2, ufrag, key, .. } => {
            assert_eq!(ufrag, text("u2"));
            key
        }
        _ => panic!("not started"),
    };
    assert_eq!(low.ice_started(2, agreed).len(), 2);
    assert_eq!(low.ice_started(9, agreed).len(), 0);
    assert_eq!(agreed, key);
    assert!(!agreed.index);
    (low, high, agreed)
}

fn seen(id: u32, status: ConnectionState, received: u64) -> HashMap<u32, Observation> {
    HashMap::from([(id, Observation { status, received })])
}

#[test]
fn both_ends_arrive_at_one_key() {
    let (low, high, key) = connected_pair();
    assert_eq!(low.connections[&2].send_key, Some(key));
    assert_eq!(high.connections[&1].send_key, Some(key));
}

#[test]
fn keys_are_changed_in_three_steps() {
    let (mut low, mut high, first) = connected_pair();
    let up = seen(2, ConnectionState::Connected, 0);
    assert!(low.rekey_tick(2, &up, 120 * SECOND).is_none());
    assert!(low.rekey_tick(3, &up, 120 * SECOND + 2).is_none());
    let mut request: Vec<_> = low.rekey_tick(2, &up, 120 * SECOND + 2).into_iter().collect();
    let request = sent_payload(&mut request, 2);
    assert!(matches!(request, FullMeshPayload::Rekey { index: true, .. }));
    let mut actions = high.handle_packet(Some((1, request)), 5).ok().unwrap();
    let reply = sent_payload(&mut actions, 1);
    let second = match only(actions) {
        FullMeshAction::SetRecvKey { peer: 1, key } => key,
        _ => panic!("no key"),
    };
    assert!(second.index && second.key != first.key);
    // packets are still sealed under the first key
    assert_eq!(high.connections[&1].send_key, Some(first));
    let mut actions = low.handle_packet(Some((2, reply)), 6).ok().unwrap();
    let confirm = sent_payload(&mut actions, 2);
    assert!(matches!(actions[0], FullMeshAction::SetRecvKey { peer: 2, key } if key == second));
    assert!(matches!(actions[1], FullMeshAction::SetSendKey { peer: 2, key } if key == second));
    let actions = high.handle_packet(Some((1, confirm)), 7).ok().unwrap();
    assert!(matches!(only(actions), FullMeshAction::SetSendKey { peer: 1, key } if key == second));
    assert_eq!(high.connections[&1].send_key, Some(second));
    assert_eq!(low.connections[&2].send_key, Some(second));
    // the end with the larger address never asks
    let up = seen(1, ConnectionState::Connected, 0);
    assert!(high.rekey_tick(1, &up, 999 * SECOND).is_none());
}

#[test]
fn what_is_no_public_key_is_refused() {
    let mut high = FullMeshIce::new(2);
    let bad = PublicKey { bytes: [9; 65] };
    assert!(matches!(
        high.handle_packet(Some((1, shake(bad))), 0),
        Err(FullMeshError::InvalidPublicKey)
    ));
    assert!(high.connections.is_empty());
    let fresh = EcdhKey::generate();
    assert!(matches!(
        high.handle_packet_with(1, shake(bad), Some(fresh), 0),
        Err(FullMeshError::InvalidPublicKey)
    ));
}

#[test]
fn packets_that_fit_nothing_are_ignored() {
    let mut fm = FullMeshIce::new(2);
    let key = EcdhKey::generate().public_key();
    let ignored = [
        (2, shake(key)),
        (3, shake(key)),
        (1, FullMeshPayload::Rekey { index: true, public_key: key }),
        (1, FullMeshPayload::RekeyConfirm { index: true, public_key: key }),
        (1, FullMeshPayload::Answer { sdp: text("sdp"), candidates: vec![] }),
    ];
    for (src, payload) in ignored {
        assert_eq!(fm.handle_packet(Some((src, payload)), 0).ok().unwrap().len(), 0);
    }
    assert!(matches!(only(fm.handle_packet(None, 0).ok().unwrap()), FullMeshAction::Stop));
}

#[test]
fn data_channels_are_offered_and_answered() {
    let mut low = FullMeshIce::new(1);
    let mut high = FullMeshIce::new(2);
    let peers = vec![Peer { id: 2, ice: false }, Peer { id: 0, ice: true }];
    assert!(matches!(only(low.peers_to_open(&peers)), FullMeshAction::OpenChannel { peer: 2 }));
    let mut actions = low.channel_opened(2, description("a=offer"), vec![], 0);
    let offer = sent_payload(&mut actions, 2);
    assert_eq!(low.peers_to_open(&peers).len(), 0);
    match only(high.handle_packet(Some((1, offer)), 0).ok().unwrap()) {
        FullMeshAction::AnswerOffer { peer: 1, sdp, .. } => assert_eq!(sdp, description("a=offer")),
        _ => panic!("not answered"),
    }
    let mut actions = vec![high.offer_answered(1, description("a=answer"), vec![])];
    let answer = sent_payload(&mut actions, 1);
    // the channel takes its place once the answer has been sent
    assert!(high.connections.is_empty());
    high.answer_sent(1, 4);
    assert_eq!(high.connections[&1].kind, ConnectionType::DataChannel);
    assert_eq!(high.connections[&1].last_rekey, 4);
    match only(low.handle_packet(Some((2, answer)), 0).ok().unwrap()) {
        FullMeshAction::ApplyAnswer { peer: 2, sdp, .. } => {
            assert_eq!(sdp, description("a=answer"))
        }
        _ => panic!("not completed"),
    }
    // a data channel has no keys
    let key = EcdhKey::generate().public_key();
    let rekey = FullMeshPayload::Rekey { index: true, public_key: key };
    assert_eq!(low.handle_packet(Some((2, rekey)), 0).ok().unwrap().len(), 0);
    assert_eq!(low.handle_packet(Some((2, shake(key))), 9).ok().unwrap().len(), 0);
    assert_eq!(low.connections[&2].last_rekey, 9);
}

#[test]
fn what_is_no_session_description_is_refused() {
    let offer = || FullMeshPayload::Offer { sdp: text("offer"), candidates: vec![] };
    let answer = || FullMeshPayload::Answer { sdp: text("answer"), candidates: vec![] };
    let mut fm = FullMeshIce::new(2);
    assert!(matches!(
        fm.handle_packet(Some((1, offer())), 0),
        Err(FullMeshError::InvalidDescription)
    ));
    // an answer from a node without a data channel is not looked at
    assert_eq!(fm.handle_packet(Some((1, answer())), 0).ok().unwrap().len(), 0);
    fm.channel_opened(1, description("a=offer"), vec![], 0);
    assert!(matches!(
        fm.handle_packet(Some((1, answer())), 0),
        Err(FullMeshError::InvalidDescription)
    ));
    let mut several = FullMesh::new(2, None);
    assert!(matches!(
        several.handle_packet(Some((1, SignalPayload::Offer(7, text("offer"))))),
        Err(SignalError::InvalidDescription)
    ));
    let answer = || Some((3, SignalPayload::Answer(7, text("answer"))));
    assert!(matches!(several.handle_packet(answer()), Ok(SignalAction::Ignore)));
    several.add_conn(3, 7, 0);
    assert!(matches!(several.handle_packet(answer()), Err(SignalError::InvalidDescription)));
}

#[test]
fn connections_are_reported() {
    let (mut low, _, _) = connected_pair();
    low.channel_opened(3, description("a=offer"), vec![], 0);
    let mut seen = HashMap::new();
    let up = PeerObservation {
        status: ConnectionState::Connected,
        selected_candidate: Some(text("10.0.0.2:5000")),
        sent: 11,
        received: 12,
    };
    let waiting = PeerObservation {
        status: ConnectionState::Connecting,
        selected_candidate: None,
        sent: 0,
        received: 0,
    };
    let stray = waiting.clone();
    seen.insert(2, up);
    seen.insert(3, waiting);
    seen.insert(4, stray);
    let mut peers = low.get_peers(&seen);
    peers.sort_by_key(|p| p.node_id);
    assert_eq!(peers.len(), 2);
    assert_eq!((peers[0].node_id, peers[0].state), (2, ConnState::Connected));
    assert_eq!(peers[0].selected_candidate, Some(text("10.0.0.2:5000")));
    assert_eq!((peers[0].sent, peers[0].received), (11, 12));
    assert_eq!((peers[1].node_id, peers[1].state), (3, ConnState::Connecting));
    assert_eq!((&peers[1].selected_candidate, peers[1].sent, peers[1].received), (&None, 0, 0));
}

#[test]
fn silent_connections_are_dropped() {
    let (mut low, _, _) = connected_pair();
    assert_eq!(low.next_connected(&seen(2, ConnectionState::Connecting, 0)), None);
    let up = seen(2, ConnectionState::Connected, 0);
    assert_eq!(low.next_connected(&up), Some(2));
    assert_eq!(low.next_connected(&up), None);
    let active = seen(2, ConnectionState::Connected, 10);
    assert_eq!(low.connect_tick(&active, 100 * SECOND), Vec::<u32>::new());
    assert_eq!(low.connections[&2].last_received, 10);
    assert_eq!(low.connect_tick(&active, 130 * SECOND - 1), Vec::<u32>::new());
    assert_eq!(low.connect_tick(&active, 130 * SECOND), vec![2]);
    assert!(low.connections.is_empty());
}

#[test]
fn closed_connections_are_dropped_without_a_word() {
    let (mut low, _, _) = connected_pair();
    assert_eq!(low.next_connected(&seen(2, ConnectionState::Connected, 0)), Some(2));
    assert_eq!(low.connect_tick(&seen(2, ConnectionState::Closed, 5), 1), Vec::<u32>::new());
    assert!(low.connections.is_empty());
}

fn conn(id: u128, time: u64, selected: bool) -> PeerConn {
    PeerConn { id, time, selected }
}

fn up_states(ids: &[u128]) -> HashMap<u128, ConnState> {
    ids.iter().map(|id| (*id, ConnState::Connected)).collect()
}

#[test]
fn connections_are_kept_while_young_or_up() {
    let conns = vec![conn(1, 0, false), conn(2, 0, false), conn(3, 50, false)];
    let states = up_states(&[2]);
    assert_eq!(keep(&conns, &states, 80, 30), vec![conns[1], conns[2]]);
    assert_eq!(keep(&conns, &states, 30, 30).len(), 3);
    assert_eq!(connected(&conns, &states), vec![conns[1]]);
    assert_eq!(remove_id(&conns, 2), vec![conns[0], conns[2]]);
}

#[test]
fn connections_in_order_of_age() {
    let conns = vec![conn(1, 5, false), conn(2, 3, false), conn(3, 5, false), conn(4, 9, false)];
    let ids = |v: Vec<PeerConn>| v.iter().map(|c| c.id).collect::<Vec<_>>();
    assert_eq!(ids(sort_oldest_first(&conns)), vec![2, 1, 3, 4]);
    assert_eq!(ids(sort_newest_first(&conns)), vec![4, 1, 3, 2]);
}

#[test]
fn the_newest_but_one_is_selected() {
    let conns = vec![conn(1, 1, true), conn(2, 2, false), conn(3, 3, false), conn(4, 4, false)];
    assert_eq!(find_favourite(&conns, &up_states(&[])), None);
    assert_eq!(find_favourite(&conns, &up_states(&[2])), Some(2));
    assert_eq!(find_favourite(&conns, &up_states(&[1, 2, 3])), Some(2));
    let after = reselect(&conns, &up_states(&[1, 2, 3]));
    assert_eq!(after.iter().filter(|c| c.selected).count(), 1);
    assert!(after[1].selected);
}

#[test]
fn the_oldest_are_discarded_but_not_the_selected_one() {
    let conns = vec![conn(1, 1, true), conn(2, 2, false), conn(3, 3, false), conn(4, 4, false)];
    assert_eq!(prune(conns.clone(), 3), vec![conns[0], conns[3]]);
    assert_eq!(prune(conns.clone(), 5).len(), 4);
    assert_eq!(prune(conns.clone(), 0), vec![conns[0]]);
}

#[test]
fn states_that_end_a_connection() {
    for state in [ConnState::Disconnected, ConnState::Failed, ConnState::Closed] {
        assert!(check_over(&state));
    }
    for state in [ConnState::New, ConnState::Connecting, ConnState::Connected] {
        assert!(!check_over(&state));
    }
}

#[test]
fn a_tick_opens_selects_and_discards() {
    let mut fm = FullMesh::new(1, None);
    let none = HashMap::new();
    assert_eq!(fm.tick_node(2, &none, 0), (false, true));
    for i in 0..5u128 {
        fm.add_conn(2, i, i as u64);
    }
    let all = up_states(&[0, 1, 2, 3, 4]);
    assert!(fm.tick_select(&all));
    assert!(!fm.tick_select(&all));
    assert_eq!(fm.get_sender(2), Some(3));
    assert_eq!(fm.get_receivers(2, &all).len(), 5);
    assert_eq!(fm.tick_node(2, &all, 60 * SECOND + 4), (false, false));
    assert_eq!(fm.tick_node(2, &all, 60 * SECOND + 5), (true, true));
    let left: Vec<u128> = fm.get_conns(2).iter().map(|c| c.id).collect();
    assert_eq!(left, vec![1, 2, 3, 4]);
    fm.tick_gc(&up_states(&[3]), 60 * SECOND);
    assert_eq!(fm.get_conns(2).len(), 1);
    assert!(fm.remove_conn(2, 3));
    assert!(!fm.remove_conn(9, 3));
    assert_eq!(fm.get_sender(2), None);
    assert_eq!(fm.get_peers(), vec![2]);
    // the end with the larger address waits for offers
    assert_eq!(FullMesh::new(3, None).tick_node(2, &none, 0), (false, false));
}

#[test]
fn several_connections_are_reported() {
    let mut fm = FullMesh::new(1, None);
    for id in [5, 6, 7u128] {
        fm.add_conn(2, id, id as u64 * SECOND);
    }
    assert!(fm.tick_select(&up_states(&[5, 6])));
    let mut seen = HashMap::new();
    let line = Some(text("10.0.0.2:5000"));
    seen.insert(5, ConnObservation { state: ConnState::Connected, selected_candidate: line.clone() });
    seen.insert(7, ConnObservation { state: ConnState::New, selected_candidate: None });
    let entries = fm.report_conns(2, &seen, 6 * SECOND + 5_999_999);
    assert_eq!(entries.len(), 2);
    let first = entries.iter().find(|e| e.id == 5).unwrap();
    assert_eq!((first.conn.selected, first.conn.state), (true, ConnState::Connected));
    assert_eq!((&first.conn.selected_candidate, first.conn.elapsed_ms), (&line, 1005));
    let last = entries.iter().find(|e| e.id == 7).unwrap();
    assert_eq!((last.conn.selected, last.conn.state), (false, ConnState::New));
    assert_eq!((&last.conn.selected_candidate, last.conn.elapsed_ms), (&None, 0));
    assert_eq!(fm.report_conns(3, &seen, 0).len(), 0);
}

#[test]
fn signals_between_two_ends() {
    let line = "candidate:1 1 udp 2130706431 192.168.1.20 5000 typ host";
    let prefix = Prefix::v4([192, 168, 0, 0], 16).unwrap();
    let mut low = FullMesh::new(1, Some(prefix));
    let high = FullMesh::new_with_parameters(2, 1, 2, 3, None);
    let sdp = description(&format!("a=setup:active\r\na={line}"));
    let offer = |id: u128| SignalPayload::Offer(id, sdp.clone());
    match high.handle_packet(Some((1, offer(7)))) {
        Ok(SignalAction::AnswerOffer { peer, id, sdp: told, sections }) => {
            assert_eq!((peer, id, told), (1, 7, sdp.clone()));
            let keys: Vec<Vec<&str>> =
                sections.iter().map(|s| s.iter().map(|a| a.key.as_str()).collect()).collect();
            assert_eq!(keys, vec![vec!["setup", "candidate"]]);
        }
        _ => panic!("not answered"),
    }
    assert!(matches!(low.handle_packet(Some((2, offer(7)))), Ok(SignalAction::Ignore)));
    assert!(matches!(low.handle_packet(Some((1, offer(7)))), Ok(SignalAction::Ignore)));
    assert!(matches!(low.handle_packet(None), Ok(SignalAction::Stop)));
    let answer = || Some((2, SignalPayload::Answer(7, sdp.clone())));
    assert!(matches!(low.handle_packet(answer()), Ok(SignalAction::Ignore)));
    low.add_conn(2, 7, 0);
    match low.handle_packet(answer()) {
        Ok(SignalAction::ApplyAnswer { peer: 2, id: 7, sections, .. }) => {
            // the address of the candidate is in the prefix
            assert_eq!((sections.len(), sections[0].len()), (1, 1));
            assert_eq!(sections[0][0].key, "setup");
        }
        _ => panic!("not applied"),
    }
    let candidate = |line: &str| Some((2, SignalPayload::Candidate(7, text(line))));
    assert!(matches!(low.handle_packet(candidate(line)), Ok(SignalAction::Ignore)));
    assert!(matches!(
        low.handle_packet(candidate("broken")),
        Err(SignalError::InvalidCandidate)
    ));
    let mut open = FullMesh::new(1, None);
    assert!(matches!(open.handle_packet(candidate("broken")), Ok(SignalAction::Ignore)));
    open.add_conn(2, 7, 0);
    assert!(matches!(
        open.handle_packet(candidate(line)),
        Ok(SignalAction::AddCandidate { peer: 2, id: 7, .. })
    ));
}

#[test]
fn ids_of_connections_differ() {
    let (a, b) = (new_conn_id(), new_conn_id());
    assert_ne!(a, b);
    assert_eq!((a >> 76 & 0xf, a >> 62 & 3), (4, 2));
}
