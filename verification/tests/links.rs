//! The command line, links to servers, and the network of named peers.

use cryonet::config::{parse_rtc_ice_server, split_fields};
use cryonet::connection::{
    accept, check_auth, check_request, classify_message, is_listed, parse_node_id, unlist, AuthError,
    AuthPacket, ConnManager, MessageKind, Rejection, RequestError,
};
use cryonet::mesh::LinkError;
use cryonet::net::{
    DescAction, DescPacket, NetActorState, NetPeerRef, Signal, Stop, StopReason, WSConnectActorState,
};
use cryonet::rtc_shake::{
    check_answer, check_init, check_offer, is_master, DescStep, Peer, RTCShakeActorState, ShakeError,
    WSPacket,
};

fn text(s: &str) -> String {
    s.to_string()
}

fn texts(list: &[&str]) -> Vec<String> {
    list.iter().map(|s| s.to_string()).collect()
}

#[test]
fn ice_servers() {
    let server = parse_rtc_ice_server("stun:example.org").ok().unwrap();
    assert_eq!((server.url, server.username, server.credential), (text("stun:example.org"), None, None));
    let server = parse_rtc_ice_server("turn:example.org|user|word").ok().unwrap();
    assert_eq!(server.url, "turn:example.org");
    assert_eq!(server.username, Some(text("user")));
    assert_eq!(server.credential, Some(text("word")));
    assert_eq!(
        parse_rtc_ice_server("a|b").err(),
        Some(text("Unexpected ice server: a|b"))
    );
    assert!(parse_rtc_ice_server("a|b|c|d").is_err());
    assert!(parse_rtc_ice_server("").is_ok());
}

#[test]
fn fields_between_separators() {
    assert_eq!(split_fields("a|bc||d", '|'), texts(&["a", "bc", "", "d"]));
    assert_eq!(split_fields("", '|'), texts(&[""]));
    assert_eq!(split_fields("äö|ü", '|').join("|"), "äö|ü");
}

#[test]
fn links_are_authenticated() {
    let packet = |token: Option<&str>| {
        Some(AuthPacket { token: token.map(|t| t.to_string()), node_id: 5 })
    };
    let token = Some(text("t"));
    assert_eq!(check_auth(&token, packet(Some("t"))), Ok(5));
    assert_eq!(check_auth(&token, packet(Some("u"))), Err(AuthError::InvalidToken));
    assert_eq!(check_auth(&token, packet(None)), Err(AuthError::InvalidToken));
    assert_eq!(check_auth(&token, None), Err(AuthError::NoReply));
    assert_eq!(check_auth(&None, packet(Some("u"))), Ok(5));
    assert_eq!(check_auth(&None, packet(None)), Ok(5));
}

#[test]
fn node_addresses() {
    assert_eq!(parse_node_id("4294967295"), Some(4294967295));
    assert_eq!(parse_node_id("4294967296"), None);
    assert_eq!(parse_node_id("99999999999999999999"), None);
    assert_eq!(parse_node_id("+7"), Some(7));
    assert_eq!(parse_node_id("007"), Some(7));
    for bad in ["", "+", "-1", "1a", " 1", "++1"] {
        assert_eq!(parse_node_id(bad), None);
    }
}

#[test]
fn requests_by_header() {
    let token = Some(text("t"));
    assert_eq!(check_request(&token, Some("t"), Some("5")), Ok(5));
    assert_eq!(check_request(&token, Some("u"), Some("5")), Err(RequestError::Unauthorized));
    assert_eq!(check_request(&token, None, Some("5")), Err(RequestError::Unauthorized));
    assert_eq!(check_request(&token, Some("t"), None), Err(RequestError::BadRequest));
    assert_eq!(check_request(&None, None, Some("x")), Err(RequestError::BadRequest));
    assert_eq!(check_request(&None, Some("u"), Some("6")), Ok(6));
    let links = vec![6];
    let reject = |a: Option<&str>, n: Option<&str>| accept(&token, a, n, &links).err().map(|r| r.message());
    assert_eq!(accept(&token, Some("t"), Some("5"), &links), Ok(5));
    assert_eq!(reject(None, Some("5")), Some(text("Missing Authorization header")));
    assert_eq!(reject(Some("u"), Some("5")), Some(text("Invalid Authorization token")));
    assert_eq!(reject(Some("t"), None), Some(text("Invalid X-Node-Id header")));
    assert_eq!(reject(Some("t"), Some("x")), Some(text("Invalid X-Node-Id header")));
    assert_eq!(reject(Some("t"), Some("6")), Some(text("Link to this node already exists")));
    assert_eq!(accept(&None, None, Some("6"), &links), Err(Rejection::LinkExists));
}

#[test]
fn messages_of_a_link() {
    assert_eq!(classify_message(MessageKind::Binary), Ok(()));
    assert_eq!(classify_message(MessageKind::Close), Err(LinkError::Closed));
    assert_eq!(classify_message(MessageKind::End), Err(LinkError::Closed));
    assert_eq!(classify_message(MessageKind::Other), Err(LinkError::Unknown));
    assert_eq!(classify_message(MessageKind::Failed), Err(LinkError::Unknown));
}

#[test]
fn no_server_is_tried_twice_at_a_time() {
    let mut mgr = ConnManager::new(1, None, texts(&["a", "", "b", "a"]));
    assert_eq!(mgr.connect_interval, 8_000_000_000);
    assert_eq!(mgr.connect(), texts(&["a", "b"]));
    assert_eq!(mgr.connect(), texts(&[]));
    mgr.finished(&text("a"));
    assert_eq!(mgr.connect(), texts(&["a"]));
    assert!(mgr.needs_connection(&text("a"), &vec![7]));
    mgr.connected(text("a"), 6);
    mgr.connected(text("b"), 6);
    mgr.connected(text("a"), 7);
    assert_eq!(mgr.servers_map.len(), 2);
    assert!(!mgr.needs_connection(&text("b"), &vec![6]));
    assert!(!mgr.needs_connection(&text("a"), &vec![7]));
    assert!(mgr.needs_connection(&text("a"), &vec![6]));
    assert!(is_listed(&texts(&["x", "y"]), &text("y")));
    assert_eq!(unlist(&texts(&["x", "y", "x"]), &text("x")), texts(&["y"]));
}

#[test]
fn one_of_two_peers_is_the_master() {
    assert_eq!(is_master(&text("ab"), &text("aa")), Ok(true));
    assert_eq!(is_master(&text("aa"), &text("ab")), Ok(false));
    assert_eq!(is_master(&text("aa"), &text("aa")), Err(ShakeError::SameId));
    assert_eq!(is_master(&text("aaa"), &text("zz")), Ok(true));
    assert_eq!(is_master(&text("zzz"), &text("aa")), Ok(true));
    assert_eq!(is_master(&text("aa"), &text("zzz")), Ok(false));
    // of two names of which one starts with the other, the longer one is the master
    assert_eq!(is_master(&text("a"), &text("aa")), Ok(false));
    assert_eq!(is_master(&text("aa"), &text("a")), Ok(true));
    assert_eq!(is_master(&text("ab"), &text("a")), Ok(true));
    assert_eq!(is_master(&text(""), &text("a")), Ok(false));
    assert_eq!(is_master(&text(""), &text("")), Err(ShakeError::SameId));
    // of other names of different lengths both ends may be masters
    assert_eq!(is_master(&text("b"), &text("aa")), Ok(true));
    assert_eq!(is_master(&text("aa"), &text("b")), Ok(true));
}

#[test]
fn errors_of_a_hand_shake_as_text() {
    assert_eq!(ShakeError::Connection.message("x"), "connection error");
    assert_eq!(ShakeError::SameId.message("x"), "same id exists in network");
    assert_eq!(ShakeError::Token.message("x"), "failed to verify token: x");
}

#[test]
fn the_master_hands_on_its_channels() {
    let mut state = RTCShakeActorState::new(text("x"), true, Some(text("offer")), Some(1), Some(2));
    assert_eq!(state.get_desc(), Some(text("offer")));
    assert_eq!(state.put_desc(), DescStep::Take);
    state.desc_taken(None);
    assert_eq!(state.get_desc(), Some(text("offer")));
    assert_eq!(state.put_desc(), DescStep::Ignore);
    assert_eq!(state.connected(), Some(Peer::new(1, 2)));
    assert!(!state.rtc && state.signal_channel.is_none() && state.data_channel.is_none());
}

#[test]
fn the_other_end_waits_for_channels() {
    let mut state = RTCShakeActorState::new(text("x"), false, None, None, None);
    assert_eq!(state.get_desc(), None);
    assert_eq!(state.put_desc(), DescStep::TakeAndAnswer);
    state.desc_taken(Some(text("answer")));
    assert_eq!(state.get_desc(), Some(text("answer")));
    assert_eq!(state.connected(), None);
    assert_eq!(state.on_channel(&text("other"), 3), Err(ShakeError::Connection));
    assert_eq!(state.on_channel(&text("data"), 4), Ok(None));
    assert_eq!(state.on_channel(&text("shake"), 5), Ok(Some(Peer { signal: 5, data: 4 })));
    assert!(!state.rtc);
}

#[test]
fn packets_of_a_hand_shake() {
    let init = |token: &str| Some(WSPacket::Init { id: text("x"), token: text(token) });
    assert_eq!(check_init(init("t"), &text("t")), Ok(text("x")));
    assert_eq!(check_init(init("u"), &text("t")), Err(ShakeError::Token));
    assert_eq!(check_init(None, &text("t")), Err(ShakeError::Connection));
    assert_eq!(check_offer(Some(WSPacket::Offer(text("d")))), Ok(text("d")));
    assert_eq!(check_offer(Some(WSPacket::Answer(text("d")))), Err(ShakeError::Connection));
    assert_eq!(check_answer(Some(WSPacket::Answer(text("d")))), Ok(text("d")));
    assert_eq!(check_answer(Some(WSPacket::Offer(text("d")))), Err(ShakeError::Connection));
}

fn known(net: &NetActorState) -> Vec<(String, u64, NetPeerRef)> {
    net.peers.iter().map(|p| (p.remote_id.clone(), p.last_shake, p.actor)).collect()
}

#[test]
fn peers_tell_of_peers() {
    let mut net = NetActorState::new(text("me"), 10);
    assert!(net.is_alone());
    net.alive(text("a"), &texts(&["me", "a", "b", "b"]), 3);
    assert_eq!(
        known(&net),
        vec![(text("a"), 3, NetPeerRef::Added), (text("b"), 3, NetPeerRef::Added)]
    );
    net.alive(text("a"), &vec![], 5);
    assert_eq!(known(&net)[0].1, 5);
    assert!(!net.is_alone());
}

#[test]
fn new_connections_replace_what_ran_before() {
    let mut net = NetActorState::new(text("me"), 10);
    assert_eq!(net.new_peer(&text("a")), None);
    net.peer_spawned(text("a"), 1, 0);
    assert_eq!(net.new_peer(&text("a")), Some(Stop { actor: 1, reason: StopReason::Replaced }));
    assert!(net.is_alone());
    net.alive(text("a"), &vec![], 0);
    net.shake_spawned(&text("a"), 2);
    assert_eq!(net.new_peer(&text("a")), Some(Stop { actor: 2, reason: StopReason::Established }));
    net.peer_spawned(text("a"), 3, 1);
    assert_eq!(
        net.peer_disconnected(&text("a"), 2),
        Some(Stop { actor: 3, reason: StopReason::Disconnected })
    );
    assert_eq!(known(&net), vec![(text("a"), 2, NetPeerRef::Added)]);
    assert_eq!(net.peer_disconnected(&text("a"), 3), None);
}

#[test]
fn checks_drop_and_reconnect() {
    let mut net = NetActorState::new(text("me"), 10);
    net.alive(text("added"), &texts(&["pending", "young"]), 0);
    net.shake_spawned(&text("pending"), 1);
    net.peer_spawned(text("connected"), 2, 0);
    net.alive(text("young"), &vec![], 5);
    assert_eq!(net.send_alive(), (texts(&["added", "pending", "young", "connected"]), vec![2]));
    let (stops, waiting) = net.check(11);
    assert_eq!(
        stops,
        vec![
            Stop { actor: 1, reason: StopReason::ShakeTimeout },
            Stop { actor: 2, reason: StopReason::AliveTimeout },
        ]
    );
    assert_eq!(waiting, texts(&["young", "connected"]));
    assert_eq!(known(&net)[1], (text("connected"), 11, NetPeerRef::Added));
}

#[test]
fn descriptions_find_their_way() {
    let mut net = NetActorState::new(text("me"), 10);
    net.alive(text("p"), &vec![], 0);
    net.shake_spawned(&text("p"), 4);
    net.peer_spawned(text("c"), 5, 0);
    net.peer_spawned(text("d"), 6, 0);
    let packet = |from: &str, target: &str| DescPacket {
        from_id: text(from),
        target_id: text(target),
        desc: text("desc"),
    };
    match net.remote_desc(packet("p", "me")) {
        DescAction::PutDesc { shake, desc } => assert_eq!((shake, desc), (4, text("desc"))),
        _ => panic!("not put"),
    }
    match net.remote_desc(packet("x", "c")) {
        DescAction::Forward { peer, packet } => assert_eq!((peer, packet.from_id), (5, text("x"))),
        _ => panic!("not forwarded"),
    }
    assert!(matches!(net.remote_desc(packet("c", "me")), DescAction::Ignore));
    assert!(matches!(net.remote_desc(packet("x", "p")), DescAction::Ignore));
    assert!(matches!(net.remote_desc(packet("x", "y")), DescAction::Ignore));
    match net.handle_signal(text("c"), Signal::Desc(packet("p", "me")), 1) {
        DescAction::PutDesc { shake, .. } => assert_eq!(shake, 4),
        _ => panic!("not put"),
    }
    assert!(matches!(
        net.handle_signal(text("c"), Signal::Alive(texts(&["p", "d"])), 1),
        DescAction::Ignore
    ));
    assert_eq!(known(&net)[1].1, 1);
    let relays = net.relay_descs(&texts(&["p", "c"]));
    let pairs: Vec<(usize, u64)> = relays.iter().map(|r| (r.desc, r.peer)).collect();
    assert_eq!(pairs, vec![(0, 5), (0, 6), (1, 6)]);
}

#[test]
fn servers_are_tried_again_when_done() {
    let mut connect = WSConnectActorState::new();
    let servers = texts(&["a", "b", "a"]);
    assert_eq!(connect.connect(&servers), texts(&["a", "b"]));
    assert_eq!(connect.connect(&servers), texts(&[]));
    connect.connected(&text("b"));
    assert_eq!(connect.connect(&servers), texts(&["b"]));
}
