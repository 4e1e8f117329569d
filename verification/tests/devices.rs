//! The registry, candidates and the devices.

use cryonet::addr::{IpAddr, Prefix};
use cryonet::fullmesh::candidates::{
    add_candidates, check_candidate, check_description, check_line, clear_candidates, filter_candidate,
    filter_description, filter_sections, gather, Candidate, SdpAttribute,
};
use cryonet::fullmesh::registry::{
    find_owner, ConnectionType, IpEntry, Node, Registry, RegistryPayload,
};
use cryonet::fullmesh::tap::{
    is_ndp, mac_of, make_tap_mac, NsNa, SendLoopMessage, TapAction, TapManager,
};
use cryonet::fullmesh::tun::{
    handle_refresh, is_for_device, keepalive, path_step, recv_loop, send_loop, PathEvent, PathStep,
    Received, RecvStep, SendEvent, TunManager,
};
use cryonet::fullmesh::{report_state, status, ConnectionState};
use cryonet::uapi::ConnState;

const SECOND: u64 = 1_000_000_000;
const HOST: &str = "candidate:1 1 udp 2130706431 192.168.1.20 5000 typ host";
const HOST6: &str = "candidate:2 1 udp 2130706431 fd00::20 5000 typ host";

fn announce(ips: Vec<IpAddr>) -> RegistryPayload {
    RegistryPayload::Node(Node { connection_types: vec![ConnectionType::Ice], ips })
}

#[test]
fn addresses_belong_to_who_announced_them_last() {
    let mut registry = Registry::new(vec![ConnectionType::Ice, ConnectionType::DataChannel]);
    let a = IpAddr::V4([10, 0, 0, 1]);
    let b = IpAddr::V6([7; 16]);
    assert_eq!(registry.owner(&a), None);
    assert!(registry.handle_packet(Some((2, announce(vec![a, b]))), 5));
    assert!(registry.handle_packet(Some((3, announce(vec![a]))), 6));
    assert_eq!(registry.owner(&a), Some(3));
    assert_eq!(registry.owner(&b), Some(2));
    assert_eq!(registry.ips.len(), 2);
    assert!(!registry.handle_packet(None, 7));
    let node = registry.announcement(vec![b]);
    assert_eq!(node.connection_types, vec![ConnectionType::Ice, ConnectionType::DataChannel]);
    assert_eq!(node.ips, vec![b]);
}

#[test]
fn silent_nodes_are_forgotten() {
    let mut registry = Registry::new(vec![]);
    assert_eq!((registry.announce_interval, registry.node_timeout), (30 * SECOND, 120 * SECOND));
    let a = IpAddr::V4([10, 0, 0, 1]);
    let b = IpAddr::V4([10, 0, 0, 2]);
    registry.handle_packet(Some((2, announce(vec![a]))), 0);
    let channel_only = Node { connection_types: vec![ConnectionType::DataChannel], ips: vec![b] };
    registry.handle_packet(Some((3, RegistryPayload::Node(channel_only))), 1);
    registry.gc(120 * SECOND - 1);
    assert_eq!(registry.get_nodes().len(), 2);
    registry.gc(120 * SECOND);
    let nodes = registry.get_nodes();
    assert_eq!(nodes.len(), 1);
    assert_eq!((nodes[0].id, nodes[0].ice), (3, false));
    assert_eq!(registry.owner(&a), None);
    assert_eq!(find_owner(&registry.ips, &b), Some(3));
}

#[test]
fn candidates_outside_the_prefix_are_used() {
    let prefix = Some(Prefix::v4([192, 168, 0, 0], 16).unwrap());
    assert_eq!(check_line(HOST, &prefix), Some(false));
    assert_eq!(check_line(HOST, &None), Some(true));
    assert_eq!(check_line(HOST6, &prefix), Some(true));
    assert_eq!(check_line("no candidate", &None), None);
    let six = Some(Prefix::v6([0xfd, 0, 0, 0, 0, 0, 0, 0, 0, 0, 0, 0, 0, 0, 0, 0], 8).unwrap());
    assert_eq!(check_line(HOST6, &six), Some(false));
    assert!(check_candidate(&IpAddr::V4([10, 0, 0, 1]), &prefix));
    assert!(!check_candidate(&IpAddr::V4([10, 0, 0, 1]), &Some(Prefix::Any)));
}

#[test]
fn candidate_lines_are_filtered() {
    let prefix = Some(Prefix::v4([192, 168, 0, 0], 16).unwrap());
    let lines = vec![HOST.to_string(), "broken".to_string(), HOST6.to_string()];
    assert_eq!(add_candidates(&lines, &prefix), vec![HOST6.to_string()]);
    assert_eq!(add_candidates(&lines, &None), vec![HOST.to_string(), HOST6.to_string()]);
    let own = vec![
        Candidate { ip: IpAddr::V4([192, 168, 3, 4]), line: "first".to_string() },
        Candidate { ip: IpAddr::V4([203, 0, 113, 1]), line: "second".to_string() },
    ];
    assert_eq!(gather(&own, &prefix), vec!["second".to_string()]);
    assert_eq!(gather(&own, &None).len(), 2);
}

#[test]
fn session_descriptions_are_filtered() {
    let attribute = |key: &str, value: Option<&str>| SdpAttribute {
        key: key.to_string(),
        value: value.map(|v| v.to_string()),
    };
    let attributes = vec![
        attribute("mid", Some("0")),
        attribute("candidate", Some(HOST)),
        attribute("candidate", Some("broken")),
        attribute("candidate", None),
        attribute("candidate", Some(HOST6)),
    ];
    let prefix = Some(Prefix::v4([192, 168, 0, 0], 16).unwrap());
    let filtered = filter_candidate(&attributes, &prefix);
    let values: Vec<_> = filtered.iter().map(|a| a.value.as_deref()).collect();
    assert_eq!(values, vec![Some("0"), Some("broken"), None, Some(HOST6)]);
    let cleared = clear_candidates(&attributes);
    assert_eq!(cleared.len(), 1);
    assert_eq!(cleared[0].key, "mid");
}

#[test]
fn session_descriptions_are_read_and_filtered() {
    let head = "v=0\r\no=- 1 1 IN IP4 0.0.0.0\r\ns=-\r\nt=0 0\r\na=group:BUNDLE 0 1\r\n";
    let media = "m=application 9 UDP/DTLS/SCTP webrtc-datachannel\r\n";
    let sdp = format!("{head}{media}a=mid:0\r\na={HOST}\r\na=end-of-candidates\r\n");
    let sdp = format!("{sdp}{media}a=mid:1\r\na={HOST6}\r\na=candidate:broken\r\n");
    let texts = |sections: Vec<Vec<SdpAttribute>>| -> Vec<Vec<(String, Option<String>)>> {
        sections.into_iter().map(|s| s.into_iter().map(|a| (a.key, a.value)).collect()).collect()
    };
    let candidate = |line: &str| {
        let value = line.trim_start_matches("candidate:").to_string();
        ("candidate".to_string(), Some(value))
    };
    let end = ("end-of-candidates".to_string(), None);
    let second = vec![candidate(HOST6), candidate("broken")];
    for offer in [true, false] {
        let all = texts(filter_description(offer, &sdp, &None).unwrap());
        assert_eq!(all, vec![vec![candidate(HOST), end.clone()], second.clone()]);
        let prefix = Some(Prefix::v4([192, 168, 0, 0], 16).unwrap());
        let left = texts(filter_description(offer, &sdp, &prefix).unwrap());
        assert_eq!(left, vec![vec![end.clone()], second.clone()]);
        assert!(check_description(offer, &sdp));
        assert!(!check_description(offer, "v=0"));
        assert!(filter_description(offer, "candidate", &None).is_none());
        // nothing more is taken out the second time
        let once = filter_description(offer, &sdp, &prefix).unwrap();
        assert_eq!(texts(filter_sections(&once, &prefix)), left);
    }
}

#[test]
fn devices_are_named_after_nodes() {
    let mut tun = TunManager::new("cn".to_string(), true);
    assert_eq!(tun.keepalive_interval, 10 * SECOND);
    assert_eq!(tun.device_name(0x1a2b), "cn1A2B");
    assert_eq!(tun.device_name(0), "cn0");
    assert!(!tun.connected(5));
    // without a device there is nothing to end
    assert!(!tun.connected(5));
    tun.started(5);
    assert!(tun.connected(5));
    assert!(!tun.disconnected(5));
    tun.started(5);
    assert!(tun.disconnected(5));
    assert!(!tun.disconnected(5));
    assert_eq!(keepalive(), vec![0]);
    assert!(!is_for_device(&keepalive()));
    assert!(is_for_device(&[0x45, 0]));
    let running = std::collections::HashSet::from([2]);
    assert_eq!(handle_refresh(&vec![1, 2, 3], &running), vec![1, 3]);
}

#[test]
fn states_are_reported() {
    assert_eq!(report_state(ConnectionState::Connecting), ConnState::Connecting);
    assert_eq!(report_state(ConnectionState::Connected), ConnState::Connected);
    assert_eq!(report_state(ConnectionState::Closed), ConnState::Closed);
}

#[test]
fn mac_addresses_tell_nodes() {
    assert_eq!(make_tap_mac(0xffee, 0x01020304), [0xfe, 0xee, 1, 2, 3, 4]);
    assert_eq!(make_tap_mac(0x0011, 5), [0x02, 0x11, 0, 0, 0, 5]);
    assert_eq!(mac_of(&[2, 0x11, 0, 0, 0, 5], 0xaabbccdd), [2, 0x11, 0xaa, 0xbb, 0xcc, 0xdd]);
}

fn frame(destination: [u8; 6], source: [u8; 6], ethertype: u16, payload: &[u8]) -> Vec<u8> {
    let mut frame = destination.to_vec();
    frame.extend_from_slice(&source);
    frame.extend_from_slice(&ethertype.to_be_bytes());
    frame.extend_from_slice(payload);
    frame
}

fn tap(packet_information: bool) -> TapManager {
    let mut tap = TapManager::new(1, 0x0211, packet_information);
    assert!(tap.handle_message(Some(SendLoopMessage::Connected(7))));
    tap
}

#[test]
fn unicast_frames_reach_their_node() {
    let mut tap = tap(false);
    let own = tap.tap_mac;
    assert_eq!(own, [2, 0x11, 0, 0, 0, 1]);
    match tap.handle_frame(&frame(mac_of(&own, 7), own, 0x0800, b"payload"), &vec![]) {
        TapAction::Send { node, packet } => assert_eq!((node, packet), (7, b"payload".to_vec())),
        _ => panic!("not sent"),
    }
    let ignored = [
        frame(mac_of(&own, 8), own, 0x0800, b"payload"),
        frame(mac_of(&own, 7), mac_of(&own, 9), 0x0800, b"payload"),
        frame(mac_of(&own, 7), own, 0x0806, b"payload"),
        frame([4, 0x11, 0, 0, 0, 7], own, 0x0800, b"payload"),
        vec![0; 13],
    ];
    for frame in ignored {
        assert!(matches!(tap.handle_frame(&frame, &vec![]), TapAction::Ignore));
    }
    assert_eq!(tap.connected_nodes(), vec![7]);
    assert!(tap.handle_message(Some(SendLoopMessage::Disconnected(7))));
    assert_eq!(tap.connected_nodes(), Vec::<u32>::new());
    assert!(!tap.handle_message(Some(SendLoopMessage::Stop)));
    assert!(!tap.handle_message(None));
}

#[test]
fn multicast_frames_reach_all_nodes() {
    let tap = tap(true);
    let own = tap.tap_mac;
    match tap.handle_frame(&frame([0xff; 6], own, 0x8847, b"data"), &vec![]) {
        TapAction::Broadcast { packet } => assert_eq!(packet, b"\0\0\x88\x47data".to_vec()),
        _ => panic!("not broadcast"),
    }
}

#[test]
fn packets_of_nodes_become_frames() {
    let tap = tap(true);
    let own = tap.tap_mac;
    assert_eq!(
        tap.deliver(b"\0\0\x88\x47data", 7),
        Some(frame(own, mac_of(&own, 7), 0x8847, b"data"))
    );
    assert_eq!(tap.deliver(b"\0\0\x88", 7), None);
    let plain = TapManager::new(1, 0x0211, false);
    assert_eq!(plain.deliver(&[0x45, 1, 2], 7), Some(frame(own, mac_of(&own, 7), 0x0800, &[0x45, 1, 2])));
    assert_eq!(plain.deliver(&[0x60, 1, 2], 7), Some(frame(own, mac_of(&own, 7), 0x86dd, &[0x60, 1, 2])));
}

#[test]
fn arp_requests_are_answered() {
    let tap = tap(false);
    let own = tap.tap_mac;
    let mut request = vec![0, 1, 8, 0, 6, 4, 0, 1];
    request.extend_from_slice(&own);
    request.extend_from_slice(&[10, 0, 0, 1]);
    request.extend_from_slice(&[0; 6]);
    request.extend_from_slice(&[10, 0, 0, 7]);
    let asked = frame([0xff; 6], own, 0x0806, &request);
    assert!(matches!(tap.handle_frame(&asked, &vec![]), TapAction::Ignore));
    let ips = vec![IpEntry { ip: IpAddr::V4([10, 0, 0, 7]), node_id: 7, last_seen: 0 }];
    let mac = [2, 0x11, 0, 0, 0, 7];
    let mut reply = vec![0, 1, 8, 0, 6, 4, 0, 2];
    reply.extend_from_slice(&mac);
    reply.extend_from_slice(&[10, 0, 0, 7]);
    reply.extend_from_slice(&own);
    reply.extend_from_slice(&[10, 0, 0, 1]);
    match tap.handle_frame(&asked, &ips) {
        TapAction::Reply { frame: answer } => assert_eq!(answer, frame(own, mac, 0x0806, &reply)),
        _ => panic!("not answered"),
    }
    let short = frame([0xff; 6], own, 0x0806, &request[..27]);
    assert!(matches!(tap.handle_frame(&short, &ips), TapAction::Ignore));
}

fn solicitation(asking: [u8; 16], asked: [u8; 16]) -> Vec<u8> {
    let mut packet = vec![0x60, 0, 0, 0, 0, 24, 58, 255];
    packet.extend_from_slice(&asking);
    packet.extend_from_slice(&[0xff; 16]);
    packet.extend_from_slice(&[135, 0, 0, 0, 0, 0, 0, 0]);
    packet.extend_from_slice(&asked);
    packet
}

#[test]
fn neighbour_solicitations_are_answered() {
    let tap = tap(false);
    let own = tap.tap_mac;
    let mut asking = [0u8; 16];
    asking[0] = 0xfd;
    asking[15] = 1;
    let mut asked = asking;
    asked[15] = 7;
    let request = solicitation(asking, asked);
    assert!(is_ndp(0x86dd, &request, NsNa::Ns));
    assert!(!is_ndp(0x86dd, &request, NsNa::Na));
    assert!(!is_ndp(0x0800, &request, NsNa::Ns));
    let ips = vec![IpEntry { ip: IpAddr::V6(asked), node_id: 7, last_seen: 0 }];
    let question = frame([0x33, 0x33, 0xff, 0, 0, 7], own, 0x86dd, &request);
    let answer = match tap.handle_frame(&question, &ips) {
        TapAction::Reply { frame } => frame,
        _ => panic!("not answered"),
    };
    let mac = [2, 0x11, 0, 0, 0, 7];
    assert_eq!(answer.len(), 86);
    assert_eq!(answer[..14], frame(own, mac, 0x86dd, &[])[..]);
    assert_eq!(answer[14..22], [0x60, 0, 0, 0, 0, 32, 58, 255]);
    assert_eq!(answer[22..38], asked);
    assert_eq!(answer[38..54], asking);
    // 2 * fd00 + 1 + 7, the protocol, the length, and the words of the message
    let mut sum: u32 = 2 * 0xfd00 + 8 + 58 + 32;
    sum += 0x8800 + 0x6000 + 0xfd00 + 7 + 0x0201 + 0x0211 + 7;
    while sum > 0xffff {
        sum = (sum >> 16) + (sum & 0xffff);
    }
    let checksum = (0xffff - sum as u16).to_be_bytes();
    assert_eq!(answer[54..62], [136, 0, checksum[0], checksum[1], 0x60, 0, 0, 0]);
    assert_eq!(answer[62..78], asked);
    assert_eq!(answer[78..], [2, 1, 2, 0x11, 0, 0, 0, 7]);
    // the answer itself is not sent on
    let back = frame(mac, own, 0x86dd, &answer[14..]);
    assert!(is_ndp(0x86dd, &answer[14..], NsNa::Na));
    assert!(matches!(tap.handle_frame(&back, &ips), TapAction::Ignore));
    assert!(matches!(tap.handle_frame(&question, &vec![]), TapAction::Ignore));
    let mut short = request.clone();
    short[5] = 23;
    let question = frame([0x33, 0x33, 0xff, 0, 0, 7], own, 0x86dd, &short);
    assert!(matches!(tap.handle_frame(&question, &ips), TapAction::Ignore));
}

#[test]
fn states_are_condensed() {
    assert_eq!(status(ConnState::New), ConnectionState::Connecting);
    assert_eq!(status(ConnState::Connecting), ConnectionState::Connecting);
    assert_eq!(status(ConnState::Connected), ConnectionState::Connected);
    assert_eq!(status(ConnState::Disconnected), ConnectionState::Connected);
    assert_eq!(status(ConnState::Failed), ConnectionState::Closed);
    assert_eq!(status(ConnState::Closed), ConnectionState::Closed);
}

#[test]
fn steps_of_the_device_loops() {
    match recv_loop(Received::Packet(vec![0x45, 1])) {
        RecvStep::Deliver(packet) => assert_eq!(packet, vec![0x45, 1]),
        _ => panic!("not delivered"),
    }
    assert!(matches!(recv_loop(Received::Packet(vec![0])), RecvStep::Wait));
    assert!(matches!(recv_loop(Received::Failed), RecvStep::Wait));
    assert!(matches!(recv_loop(Received::Closed), RecvStep::Stop));
    assert_eq!(send_loop(SendEvent::Tick), Some(vec![0]));
    assert_eq!(send_loop(SendEvent::Read(vec![1, 2])), Some(vec![1, 2]));
    assert_eq!(send_loop(SendEvent::Failed), None);
    assert!(matches!(path_step(PathEvent::Refresh), PathStep::Reload));
    assert!(matches!(path_step(PathEvent::Failed), PathStep::Reload));
    assert!(matches!(path_step(PathEvent::Gone), PathStep::Stop));
    match path_step(PathEvent::Packet(vec![3])) {
        PathStep::Carry(packet) => assert_eq!(packet, vec![3]),
        _ => panic!("not carried"),
    }
    let tap = tap(true);
    assert!(matches!(tap.recv_loop(Received::Packet(vec![0, 0, 8]), 7), RecvStep::Wait));
    assert!(matches!(tap.recv_loop(Received::Failed, 7), RecvStep::Wait));
    assert!(matches!(tap.recv_loop(Received::Closed, 7), RecvStep::Stop));
    match tap.recv_loop(Received::Packet(vec![0, 0, 8, 0, 9]), 7) {
        RecvStep::Deliver(f) => {
            assert_eq!(f, frame(tap.tap_mac, mac_of(&tap.tap_mac, 7), 0x0800, &[9]))
        }
        _ => panic!("not delivered"),
    }
    // the longest packets that the device takes
    let longest = vec![0u8; 1990];
    match tap.recv_loop(Received::Packet(longest), 7) {
        RecvStep::Deliver(f) => assert_eq!(f.len(), 2000),
        _ => panic!("not delivered"),
    }
}
