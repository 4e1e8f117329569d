//! Links, forwarding, the control interface and what the control program prints.

use std::collections::HashMap;

use cryonet::ctl::{
    rank, show_igp_routes, show_links, show_peers, show_pong, show_reports, show_routes,
    show_unexpected,
};
use cryonet::errors::CryonetError;
use cryonet::fullmesh::fm_ice::PeerReport;
use cryonet::igp::model::IgpPayload;
use cryonet::igp::Igp;
use cryonet::mesh::{Delivery, LinkError, Mesh, MeshEvent, INITIAL_TTL};
use cryonet::packet::{elapsed, Packet, Payload, PayloadKind};
use cryonet::uapi::{
    report_routes, Conn, ConnEntry, ConnState, CryonetUapi, IgpRoute, PeerEntry, Uapi, UapiAction,
    UapiPayload,
};

const SECOND: u64 = 1_000_000_000;
const MS: u64 = 1_000_000;

fn packet(dst: u32, ttl: u8) -> Packet {
    Packet { src: 9, dst, ttl, payload: Payload::Uapi(UapiPayload::Ping(7)) }
}

fn sent(result: Result<Delivery, CryonetError>) -> Option<(u32, u8)> {
    match result {
        Ok(Delivery::Send { link, packet }) => Some((link, packet.ttl)),
        _ => None,
    }
}

#[test]
fn a_broadcast_removes_the_links_that_are_gone() {
    let mut mesh = Mesh::new(1);
    for node in [2, 3, 4, 5] {
        mesh.add_link(node);
    }
    mesh.set_route(7, 3);
    mesh.take_events();
    let outcomes =
        vec![(2, Ok(())), (3, Err(LinkError::Closed)), (4, Err(LinkError::Unknown)), (5, Ok(()))];
    assert_eq!(mesh.broadcast_sent(&outcomes), Err(LinkError::Closed));
    let mut links = mesh.get_links();
    links.sort();
    assert_eq!(links, vec![2, 4, 5]);
    assert!(mesh.take_events().contains(&MeshEvent::LinkDown(3)));
    let outcomes = vec![(4, Err(LinkError::Unknown)), (5, Err(LinkError::Closed))];
    assert_eq!(mesh.broadcast_sent(&outcomes), Err(LinkError::Unknown));
    assert_eq!(mesh.get_links().len(), 2);
    assert_eq!(mesh.broadcast_sent(&vec![(2, Ok(())), (4, Ok(()))]), Ok(()));
    assert_eq!(mesh.broadcast_sent(&vec![]), Ok(()));
    assert_eq!(mesh.get_links().len(), 2);
}

#[test]
fn time_between_two_points() {
    assert_eq!(elapsed(5, 3), 2);
    assert_eq!(elapsed(3, 5), 0);
}

#[test]
fn packets_for_this_node_are_dispatched_by_kind() {
    let mut mesh = Mesh::new(1);
    let igp = mesh.add_dispatchee(PayloadKind::Igp);
    let uapi = mesh.add_dispatchee(PayloadKind::Uapi);
    let second = mesh.add_dispatchee(PayloadKind::Uapi);
    assert!(igp != uapi && uapi != second);
    match mesh.handle_packet(9, Ok(packet(1, 0))) {
        Ok(Delivery::Dispatch { token, packet }) => {
            assert_eq!(token, uapi);
            assert_eq!(packet.src, 9);
        }
        _ => panic!("not dispatched"),
    }
    mesh.remove_dispatchee(uapi);
    match mesh.handle_packet(9, Ok(packet(1, 0))) {
        Ok(Delivery::Dispatch { token, .. }) => assert_eq!(token, second),
        _ => panic!("not dispatched"),
    }
    mesh.remove_dispatchee(second);
    assert!(matches!(mesh.handle_packet(9, Ok(packet(1, 0))), Ok(Delivery::Dropped)));
}

#[test]
fn packets_for_others_are_forwarded_with_less_ttl() {
    let mut mesh = Mesh::new(1);
    mesh.add_link(2);
    mesh.set_route(5, 2);
    assert_eq!(sent(mesh.handle_packet(9, Ok(packet(5, 4)))), Some((2, 3)));
    assert!(matches!(mesh.handle_packet(9, Ok(packet(5, 0))), Ok(Delivery::Dropped)));
    assert!(matches!(
        mesh.handle_packet(9, Ok(packet(6, 4))),
        Err(CryonetError::Unreachable(6))
    ));
}

#[test]
fn own_packets_start_with_the_full_ttl() {
    let mut mesh = Mesh::new(1);
    mesh.add_link(2);
    mesh.set_route(5, 2);
    let payload = || Payload::Igp(IgpPayload::RouteDump);
    assert_eq!(sent(mesh.send_packet(5, payload())), Some((2, INITIAL_TTL)));
    assert!(matches!(mesh.send_packet(6, payload()), Err(CryonetError::Unreachable(6))));
    assert_eq!(sent(mesh.send_packet_link(2, payload())), Some((2, 16)));
    assert!(matches!(mesh.send_packet_link(5, payload()), Err(CryonetError::NoSuchLink(5))));
    let all = mesh.broadcast_packet_local();
    assert_eq!(all.len(), 1);
    assert_eq!((all[0].src, all[0].dst, all[0].ttl), (1, 2, 16));
}

#[test]
fn routes_need_links() {
    let mut mesh = Mesh::new(1);
    assert_eq!(mesh.id(), 1);
    mesh.set_route(5, 2);
    mesh.add_link(2);
    mesh.set_route(1, 2);
    assert_eq!(mesh.get_routes().len(), 0);
    mesh.set_route(5, 2);
    mesh.set_route(6, 2);
    assert_eq!(mesh.get_routes(), HashMap::from([(5, 2), (6, 2)]));
    mesh.remove_route(6);
    mesh.remove_route(6);
    assert_eq!(
        mesh.take_events(),
        vec![
            MeshEvent::LinkUp(2),
            MeshEvent::RouteSet(5, 2),
            MeshEvent::RouteSet(6, 2),
            MeshEvent::RouteRemoved(6, 2),
        ]
    );
    assert_eq!(mesh.take_events(), vec![]);
}

#[test]
fn closed_links_are_removed_with_their_routes() {
    let mut mesh = Mesh::new(1);
    mesh.add_link(2);
    mesh.add_link(3);
    mesh.set_route(5, 2);
    mesh.set_route(6, 3);
    assert!(matches!(mesh.handle_packet(2, Err(LinkError::Unknown)), Err(CryonetError::Unknown)));
    assert_eq!(mesh.get_links().len(), 2);
    assert!(matches!(mesh.handle_packet(2, Err(LinkError::Closed)), Ok(Delivery::Dropped)));
    assert_eq!(mesh.get_links(), vec![3]);
    assert_eq!(mesh.get_routes(), HashMap::from([(6, 3)]));
    assert_eq!(mesh.link_sent(3, Ok(())), Ok(()));
    assert_eq!(mesh.link_sent(3, Err(LinkError::Unknown)), Err(LinkError::Unknown));
    assert_eq!(mesh.get_links(), vec![3]);
    assert_eq!(mesh.link_sent(3, Err(LinkError::Closed)), Err(LinkError::Closed));
    assert_eq!(mesh.get_links(), Vec::<u32>::new());
    assert_eq!(mesh.get_routes().len(), 0);
}

#[test]
fn one_end_refuses_a_second_link() {
    let mut low = Mesh::new(1);
    let mut high = Mesh::new(2);
    assert!(low.add_link(2) && high.add_link(1));
    low.set_route(5, 2);
    assert!(low.add_link(2));
    assert!(!high.add_link(1));
    assert_eq!(low.get_routes().len(), 0);
    let _ = low.take_events();
    assert_eq!(high.take_events(), vec![MeshEvent::LinkUp(1)]);
}

#[test]
fn error_messages() {
    assert_eq!(CryonetError::NoSuchLink(0xab).message(), "No link to node AB");
    assert_eq!(CryonetError::Unreachable(0x10).message(), "Route to node 10 is unreachable");
    assert_eq!(CryonetError::ChannelClosed.message(), "Channel closed");
    assert_eq!(CryonetError::Unknown.message(), "Unknown error");
}

fn client() -> Vec<u8> {
    b"/run/client".to_vec()
}

#[test]
fn clients_are_answered() {
    let mut mesh = Mesh::new(1);
    mesh.add_link(2);
    mesh.set_route(5, 2);
    let mut igp = Igp::new(1);
    igp.dump(None, 0);
    let mut uapi = Uapi::new();
    match uapi.dispatch_message(CryonetUapi::GetLinks, client(), &mesh, &igp, 0) {
        UapiAction::Reply { client: to, response: CryonetUapi::GetLinksResponse(links) } => {
            assert_eq!(to, client());
            assert_eq!(links, vec![2]);
        }
        _ => panic!("no links"),
    }
    match uapi.dispatch_message(CryonetUapi::GetRoutes, client(), &mesh, &igp, 0) {
        UapiAction::Reply { response: CryonetUapi::GetRoutesResponse(routes), .. } => {
            assert_eq!(routes, HashMap::from([(5, 2)]));
        }
        _ => panic!("no routes"),
    }
    match uapi.dispatch_message(CryonetUapi::GetIgpRoutes, client(), &mesh, &igp, SECOND) {
        UapiAction::Reply { response: CryonetUapi::GetIgpRoutesResponse(routes), .. } => {
            assert_eq!(
                routes,
                vec![IgpRoute {
                    seq: 0,
                    metric: 0,
                    computed_metric: 0,
                    dst: 1,
                    from: 1,
                    selected: true,
                    timeout_remaining_ms: 55_000,
                }]
            );
        }
        _ => panic!("no routes of the protocol"),
    }
    assert!(matches!(
        uapi.dispatch_message(CryonetUapi::GetFullMeshPeers, client(), &mesh, &igp, 0),
        UapiAction::ReplyPeers { .. }
    ));
    assert!(matches!(
        uapi.dispatch_message(CryonetUapi::Pong, client(), &mesh, &igp, 0),
        UapiAction::Ignore
    ));
}

#[test]
fn remaining_time_is_rounded_towards_zero() {
    let mut igp = Igp::new(1);
    igp.dump(None, 0);
    let routes = igp.get_routes();
    let left = |now: u64| report_routes(&routes, now)[0].timeout_remaining_ms;
    assert_eq!(left(56 * SECOND - 1), 0);
    assert_eq!(left(56 * SECOND - 2 * MS - 1), 2);
    assert_eq!(left(56 * SECOND), 0);
    assert_eq!(left(56 * SECOND + 3 * MS + 9), -3);
}

#[test]
fn pings_are_answered_once() {
    let mesh = Mesh::new(1);
    let igp = Igp::new(1);
    let mut uapi = Uapi::new();
    let uuid = match uapi.dispatch_message(CryonetUapi::Ping(5), client(), &mesh, &igp, 3) {
        UapiAction::Send { dst: 5, payload: UapiPayload::Ping(uuid) } => uuid,
        _ => panic!("no ping"),
    };
    // a random identifier: version four, variant one
    assert_eq!(uuid >> 76 & 0xf, 4);
    assert_eq!(uuid >> 62 & 3, 2);
    let other = match uapi.dispatch_message(CryonetUapi::Ping(5), client(), &mesh, &igp, 3) {
        UapiAction::Send { payload: UapiPayload::Ping(uuid), .. } => uuid,
        _ => panic!("no ping"),
    };
    assert_ne!(uuid, other);
    assert!(matches!(
        uapi.handle_packet(Some((5, UapiPayload::Ping(77)))),
        UapiAction::Send { dst: 5, payload: UapiPayload::Pong(77) }
    ));
    match uapi.handle_packet(Some((5, UapiPayload::Pong(uuid)))) {
        UapiAction::Reply { client: to, response: CryonetUapi::Pong } => assert_eq!(to, client()),
        _ => panic!("no answer"),
    }
    assert!(matches!(
        uapi.handle_packet(Some((5, UapiPayload::Pong(uuid)))),
        UapiAction::Ignore
    ));
    assert!(matches!(uapi.handle_packet(None), UapiAction::Stop));
}

#[test]
fn old_pings_are_given_up() {
    let mut uapi = Uapi::new_with_parameters(30 * SECOND, 60 * SECOND);
    assert!(matches!(
        uapi.ping_with(11, 5, client(), 0),
        UapiAction::Send { dst: 5, payload: UapiPayload::Ping(11) }
    ));
    uapi.ping_with(12, 5, client(), 1);
    uapi.gc(60 * SECOND + 1);
    assert!(!uapi.ping.contains_key(&11) && uapi.ping.contains_key(&12));
}

#[test]
fn ranking_is_stable() {
    assert_eq!(rank(&vec![3, 1, 2, 1, -5]), vec![4, 1, 3, 2, 0]);
    assert_eq!(rank(&vec![]), Vec::<usize>::new());
}

#[test]
fn printed_links_and_routes() {
    assert_eq!(show_links(&vec![0xff, 2, 0xa0]), vec!["Links:", "  2", "  A0", "  FF"]);
    assert_eq!(show_links(&vec![]), vec!["Links:"]);
    assert_eq!(
        show_routes(&HashMap::from([(0x1f, 2), (3, 0xdead)])),
        vec!["Routes:", "  3 -> DEAD", "  1F -> 2"]
    );
}

#[test]
fn printed_protocol_routes() {
    let route = |dst: u32, left: i64| IgpRoute {
        seq: 7,
        metric: 100,
        computed_metric: 4294967295,
        dst,
        from: 0xbc,
        selected: dst == 1,
        timeout_remaining_ms: left,
    };
    assert_eq!(
        show_igp_routes(&vec![route(1, 20), route(0x2a, -30)]),
        vec![
            "IGP Routes:",
            "  dst: 2A, from: BC, metric: 100, computed_metric: 4294967295, seq: 7, selected: false, timeout_remaining: -30ms",
            "  dst: 1, from: BC, metric: 100, computed_metric: 4294967295, seq: 7, selected: true, timeout_remaining: 20ms",
        ]
    );
}

#[test]
fn printed_peers() {
    let entry = |id: u128, state: ConnState, candidate: Option<&str>, elapsed_ms: u64| ConnEntry {
        id,
        conn: Conn {
            selected: candidate.is_some(),
            state,
            selected_candidate: candidate.map(|c| c.to_string()),
            elapsed_ms,
        },
    };
    let peers = vec![
        PeerEntry { node_id: 0xf0, conns: vec![] },
        PeerEntry {
            node_id: 3,
            conns: vec![
                entry(0x0123456789abcdef0123456789abcdef, ConnState::New, None, 10),
                entry(1, ConnState::Connected, Some("a \"b\""), 200),
            ],
        },
    ];
    assert_eq!(
        show_peers(&peers),
        vec![
            "Full Mesh Peers:",
            "  Node 3:",
            "    Conn 00000000-0000-0000-0000-000000000001: state: Connected, selected: true, candidate: Some(\"a \\\"b\\\"\"), elapsed: 200ms",
            "    Conn 01234567-89ab-cdef-0123-456789abcdef: state: New, selected: false, candidate: None, elapsed: 10ms",
            "  Node F0:",
        ]
    );
    for (state, name) in [
        (ConnState::Connecting, "Connecting"),
        (ConnState::Disconnected, "Disconnected"),
        (ConnState::Failed, "Failed"),
        (ConnState::Closed, "Closed"),
    ] {
        let lines = show_peers(&vec![PeerEntry { node_id: 1, conns: vec![entry(1, state, None, 0)] }]);
        assert!(lines[2].contains(&format!("state: {},", name)));
    }
}

#[test]
fn printed_reports() {
    let report = |node_id: u32, state: ConnState, candidate: Option<&str>, sent: u64| PeerReport {
        node_id,
        state,
        selected_candidate: candidate.map(|c| c.to_string()),
        sent,
        received: sent + 7,
    };
    let reports = vec![
        report(0xf0, ConnState::Connecting, None, 0),
        report(3, ConnState::Connected, Some("a \"b\""), 35),
    ];
    assert_eq!(
        show_reports(&reports),
        vec![
            "Full Mesh Peers:",
            "  Node 3: state: Connected, candidate: Some(\"a \\\"b\\\"\"), sent: 35, received: 42",
            "  Node F0: state: Connecting, candidate: None, sent: 0, received: 7",
        ]
    );
    assert_eq!(show_reports(&vec![]), vec!["Full Mesh Peers:"]);
}

#[test]
fn other_printed_lines() {
    assert_eq!(show_pong(12), "Pong received, latency: 12 ms");
    assert_eq!(
        show_unexpected(&CryonetUapi::Ping(26)),
        Some("Unexpected response: Ping(26)".to_string())
    );
    assert_eq!(
        show_unexpected(&CryonetUapi::GetFullMeshPeers),
        Some("Unexpected response: GetFullMeshPeers".to_string())
    );
    assert_eq!(show_unexpected(&CryonetUapi::Pong), None);
}
