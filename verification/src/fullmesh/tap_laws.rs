//! What holds of the Ethernet device, byte by byte.

use vstd::prelude::*;
use crate::packet::NodeId;
use super::frame::{be32, lemma_be32_read_back};
use super::registry::{owner_of, IpEntry};
use super::tap::{
    arp_reply, be16, carried, connected_after, decide_frame, delivered, ethernet_frame, folded,
    from_be16, internet_checksum, ipv6_payload, is_ndp_frame, ndp_packet, neighbor_advert, node_mac,
    tap_mac, word_at, word_sum, NsNa, SendLoopMessage, TapDecision,
};

verus! {

/// The frame comes from the host with this MAC address.
pub open spec fn comes_from(frame: Seq<u8>, mac: Seq<u8>) -> bool {
    &&& frame.len() >= 14
    &&& mac.len() == 6
    &&& forall|i: int| 0 <= i < 6 ==> #[trigger] mac[i] == frame[6 + i]
}

/// The frame is for a group of hosts.
pub open spec fn is_for_group(frame: Seq<u8>) -> bool {
    frame[0] % 2 == 1
}

/// The frame carries an ICMPv6 message of this type over IPv6.
pub open spec fn carries_message(frame: Seq<u8>, kind: u8) -> bool {
    &&& frame[12] == 0x86 && frame[13] == 0xdd
    &&& frame.len() >= 58
    &&& frame[20] == 58
    &&& frame[18] * 256 + frame[19] >= 4
    &&& frame[54] == kind
}

/// The frame carries ARP.
pub open spec fn carries_arp(frame: Seq<u8>) -> bool {
    frame[12] == 0x08 && frame[13] == 0x06
}

/// `packet` is what is sent to a node for the frame: what follows the header, and before it, if that is
/// wanted, two zeros and the type.
pub open spec fn is_carried(frame: Seq<u8>, packet: Seq<u8>, packet_information: bool) -> bool {
    if packet_information {
        &&& packet.len() == frame.len() - 10
        &&& packet[0] == 0 && packet[1] == 0
        &&& packet[2] == frame[12] && packet[3] == frame[13]
        &&& forall|i: int| 4 <= i < packet.len() ==> #[trigger] packet[i] == frame[i + 10]
    } else {
        &&& packet.len() == frame.len() - 14
        &&& forall|i: int| 0 <= i < packet.len() ==> #[trigger] packet[i] == frame[i + 14]
    }
}

proof fn lemma_frame_read(frame: Seq<u8>, mac: Seq<u8>, packet_information: bool)
    requires
        frame.len() >= 14,
        mac.len() == 6,
    ensures
        frame.subrange(6, 12) == mac <==> comes_from(frame, mac),
        is_ndp_frame(from_be16(frame, 12) as u16, frame.skip(14), NsNa::Ns) <==> carries_message(
            frame,
            135,
        ),
        is_ndp_frame(from_be16(frame, 12) as u16, frame.skip(14), NsNa::Na) <==> carries_message(
            frame,
            136,
        ),
        from_be16(frame, 12) == 0x0806 <==> carries_arp(frame),
        is_carried(
            frame,
            carried(packet_information, from_be16(frame, 12) as u16, frame.skip(14)),
            packet_information,
        ),
{
    if comes_from(frame, mac) {
        assert(frame.subrange(6, 12) =~= mac);
    }
    if frame.subrange(6, 12) == mac {
        assert forall|i: int| 0 <= i < 6 implies #[trigger] mac[i] == frame[6 + i] by {
            assert(frame.subrange(6, 12)[i] == frame[6 + i]);
        }
    }
    let payload = frame.skip(14);
    let ethertype = from_be16(frame, 12) as u16;
    assert(ethertype == 0x86dd <==> frame[12] == 0x86 && frame[13] == 0xdd);
    if payload.len() >= 40 {
        let message = ipv6_payload(payload);
        assert(payload[6] == frame[20]);
        assert(payload[4] == frame[18] && payload[5] == frame[19]);
        if message.len() >= 4 {
            assert(message[0] == payload[40]);
            assert(payload[40] == frame[54]);
        }
    }
}

/// A frame of this host for a group goes to all nodes, whatever the group and whatever the type, unless
/// it is ARP or a neighbour solicitation.
pub proof fn lemma_multicast_goes_to_all(
    frame: Seq<u8>,
    mac: Seq<u8>,
    packet_information: bool,
    ips: Seq<IpEntry>,
    connected: Set<NodeId>,
)
    requires
        comes_from(frame, mac),
        is_for_group(frame),
        !carries_arp(frame),
        !carries_message(frame, 135),
    ensures
        decide_frame(frame, mac, packet_information, ips, connected)
            matches TapDecision::Broadcast { packet } && is_carried(frame, packet, packet_information),
{
    lemma_frame_read(frame, mac, packet_information);
}

/// What does not come from this host, and what is no frame, is ignored.
pub proof fn lemma_foreign_frames_ignored(
    frame: Seq<u8>,
    mac: Seq<u8>,
    packet_information: bool,
    ips: Seq<IpEntry>,
    connected: Set<NodeId>,
)
    requires
        mac.len() == 6,
        !comes_from(frame, mac),
    ensures
        decide_frame(frame, mac, packet_information, ips, connected) is Ignore,
{
    if frame.len() >= 14 {
        lemma_frame_read(frame, mac, packet_information);
    }
}

/// A frame of this host for one host of the mesh goes to the node that the last four bytes of the
/// address name, if it is connected. ARP and neighbour advertisements go nowhere, and so does what is
/// for a host outside the mesh.
pub proof fn lemma_unicast_goes_to_its_node(
    frame: Seq<u8>,
    mac: Seq<u8>,
    packet_information: bool,
    ips: Seq<IpEntry>,
    connected: Set<NodeId>,
)
    requires
        comes_from(frame, mac),
        !is_for_group(frame),
    ensures
        ({
            let decision = decide_frame(frame, mac, packet_information, ips, connected);
            let node = (frame[2] * 16777216 + frame[3] * 65536 + frame[4] * 256
                + frame[5]) as NodeId;
            if frame[0] == mac[0] && frame[1] == mac[1] && !carries_arp(frame) && !carries_message(
                frame,
                136,
            ) && connected.contains(node) {
                decision matches TapDecision::Send { node: n, packet } && n == node && is_carried(
                    frame,
                    packet,
                    packet_information,
                )
            } else {
                decision is Ignore
            }
        }),
{
    lemma_frame_read(frame, mac, packet_information);
    let tail = frame.subrange(2, 6);
    assert(tail[0] == frame[2] && tail[1] == frame[3] && tail[2] == frame[4] && tail[3]
        == frame[5]);
}

/// The MAC address of the host of a node starts like that of this host and ends in the address of the
/// node, most significant byte first.
pub proof fn lemma_node_mac(device_mac: Seq<u8>, node: NodeId)
    requires
        device_mac.len() == 6,
    ensures
        ({
            let mac = node_mac(device_mac, node);
            &&& mac.len() == 6
            &&& mac[0] == device_mac[0] && mac[1] == device_mac[1]
            &&& mac[2] * 16777216 + mac[3] * 65536 + mac[4] * 256 + mac[5] == node
        }),
{
    lemma_be32_read_back(node as int);
    let mac = node_mac(device_mac, node);
    let bytes = be32(node as int);
    assert(mac[2] == bytes[0] && mac[3] == bytes[1] && mac[4] == bytes[2] && mac[5] == bytes[3]);
}

/// The MAC address of this host is made of the prefix, with the two lowest bits of its first byte set
/// to those of one host that is administered locally, and of the address of the node.
pub proof fn lemma_tap_mac_bytes(prefix: u16, node: NodeId)
    ensures
        ({
            let mac = tap_mac(prefix, node);
            &&& mac.len() == 6
            &&& mac[0] % 4 == 2
            &&& mac[0] / 4 == prefix / 1024
            &&& mac[1] == prefix % 256
            &&& mac[2] * 16777216 + mac[3] * 65536 + mac[4] * 256 + mac[5] == node
        }),
{
    lemma_be32_read_back(node as int);
    let mac = tap_mac(prefix, node);
    let bytes = be32(node as int);
    assert(mac[2] == bytes[0] && mac[3] == bytes[1] && mac[4] == bytes[2] && mac[5] == bytes[3]);
}

/// A run of bytes stands in others from a place on.
pub open spec fn stands_at(bytes: Seq<u8>, at: int, part: Seq<u8>) -> bool {
    &&& at + part.len() <= bytes.len()
    &&& forall|i: int| 0 <= i < part.len() ==> #[trigger] part[i] == bytes[at + i]
}

/// A frame is made of the destination, the source, the type and the payload, in this order.
pub proof fn lemma_frame_layout(
    destination: Seq<u8>,
    source: Seq<u8>,
    ethertype: u16,
    payload: Seq<u8>,
)
    requires
        destination.len() == 6,
        source.len() == 6,
    ensures
        ({
            let frame = ethernet_frame(destination, source, ethertype, payload);
            &&& frame.len() == 14 + payload.len()
            &&& stands_at(frame, 0, destination)
            &&& stands_at(frame, 6, source)
            &&& frame[12] * 256 + frame[13] == ethertype
            &&& stands_at(frame, 14, payload)
        }),
{
    let frame = ethernet_frame(destination, source, ethertype, payload);
    assert(frame[12] == be16(ethertype)[0] && frame[13] == be16(ethertype)[1]);
}

/// An ARP request is answered on the spot if and only if a node has announced the address asked for.
/// The answer goes to this host and comes from the host of that node; it tells that host's MAC address
/// for the address asked for, to who asked.
pub proof fn lemma_arp_answered(
    frame: Seq<u8>,
    mac: Seq<u8>,
    packet_information: bool,
    ips: Seq<IpEntry>,
    connected: Set<NodeId>,
)
    requires
        comes_from(frame, mac),
        is_for_group(frame),
        carries_arp(frame),
    ensures
        ({
            let decision = decide_frame(frame, mac, packet_information, ips, connected);
            if frame.len() < 42 || owner_of(ips, frame.subrange(38, 42)) is None {
                decision is Ignore
            } else {
                let host = node_mac(mac, owner_of(ips, frame.subrange(38, 42))->0);
                &&& decision matches TapDecision::Reply { frame: reply }
                &&& reply.len() == 42
                &&& stands_at(reply, 0, mac)
                &&& stands_at(reply, 6, host)
                &&& stands_at(
                    reply,
                    12,
                    seq![8u8, 6u8, 0u8, 1u8, 8u8, 0u8, 6u8, 4u8, 0u8, 2u8],
                )
                &&& stands_at(reply, 22, host)
                &&& stands_at(reply, 28, frame.subrange(38, 42))
                &&& stands_at(reply, 32, mac)
                &&& stands_at(reply, 38, frame.subrange(28, 32))
            }
        }),
{
    lemma_frame_read(frame, mac, packet_information);
    let payload = frame.skip(14);
    if frame.len() >= 42 {
        let asked = frame.subrange(38, 42);
        let asking = frame.subrange(28, 32);
        assert(payload.subrange(24, 28) =~= asked);
        assert(payload.subrange(14, 18) =~= asking);
        match owner_of(ips, asked) {
            Some(node) => {
                let host = node_mac(mac, node);
                lemma_node_mac(mac, node);
                let body = arp_reply(host, asked, mac, asking);
                let reply = ethernet_frame(mac, host, 0x0806, body);
                lemma_frame_layout(mac, host, 0x0806, body);
                assert(reply == (decide_frame(
                    frame,
                    mac,
                    packet_information,
                    ips,
                    connected,
                )->Reply_frame));
                assert(body.len() == 28);
                assert forall|i: int| 0 <= i < 28 implies #[trigger] body[i] == reply[14 + i] by {}
                assert(stands_at(body, 8, host));
                assert(stands_at(body, 14, asked));
                assert(stands_at(body, 18, mac));
                assert(stands_at(body, 24, asking));
                assert forall|i: int| 0 <= i < 6 implies #[trigger] host[i] == reply[22 + i] by {
                    assert(body[8 + i] == reply[14 + (8 + i)]);
                }
                assert forall|i: int| 0 <= i < 4 implies #[trigger] asked[i] == reply[28 + i] by {
                    assert(body[14 + i] == reply[14 + (14 + i)]);
                }
                assert forall|i: int| 0 <= i < 6 implies #[trigger] mac[i] == reply[32 + i] by {
                    assert(body[18 + i] == reply[14 + (18 + i)]);
                }
                assert forall|i: int| 0 <= i < 4 implies #[trigger] asking[i] == reply[38 + i] by {
                    assert(body[24 + i] == reply[14 + (24 + i)]);
                }
                assert(reply[12] == be16(0x0806)[0] && reply[13] == be16(0x0806)[1]);
                let head = seq![8u8, 6u8, 0u8, 1u8, 8u8, 0u8, 6u8, 4u8, 0u8, 2u8];
                assert forall|i: int| 0 <= i < 10 implies #[trigger] head[i] == reply[12 + i] by {
                    if i >= 2 {
                        assert(body[i - 2] == reply[14 + (i - 2)]);
                    }
                }
            },
            None => {},
        }
    }
}

/// A neighbour solicitation is answered on the spot if and only if a node has announced the address
/// asked for. The answer is an IPv6 packet from that address to who asked, with an advertisement that
/// tells the MAC address of the host of that node.
pub proof fn lemma_solicitation_answered(
    frame: Seq<u8>,
    mac: Seq<u8>,
    packet_information: bool,
    ips: Seq<IpEntry>,
    connected: Set<NodeId>,
)
    requires
        comes_from(frame, mac),
        is_for_group(frame),
        carries_message(frame, 135),
    ensures
        ({
            let decision = decide_frame(frame, mac, packet_information, ips, connected);
            let complete = frame.len() >= 78 && frame[18] * 256 + frame[19] >= 24;
            if !complete || owner_of(ips, frame.subrange(62, 78)) is None {
                decision is Ignore
            } else {
                let asked = frame.subrange(62, 78);
                let asking = frame.subrange(22, 38);
                let host = node_mac(mac, owner_of(ips, asked)->0);
                &&& decision matches TapDecision::Reply { frame: reply }
                &&& reply.len() == 86
                &&& stands_at(reply, 0, mac)
                &&& stands_at(reply, 6, host)
                &&& reply[12] == 0x86 && reply[13] == 0xdd
                &&& stands_at(reply, 14, seq![0x60u8, 0u8, 0u8, 0u8, 0u8, 32u8, 58u8, 255u8])
                &&& stands_at(reply, 22, asked)
                &&& stands_at(reply, 38, asking)
                &&& reply[54] == 136 && reply[55] == 0
                &&& stands_at(reply, 58, seq![0x60u8, 0u8, 0u8, 0u8])
                &&& stands_at(reply, 62, asked)
                &&& reply[78] == 2 && reply[79] == 1
                &&& stands_at(reply, 80, host)
                &&& checksum_holds(asked, asking, reply.skip(54))
            }
        }),
{
    lemma_frame_read(frame, mac, packet_information);
    let payload = frame.skip(14);
    let message = ipv6_payload(payload);
    assert(payload[4] == frame[18] && payload[5] == frame[19]);
    if message.len() >= 24 {
        let asked = frame.subrange(62, 78);
        let asking = frame.subrange(22, 38);
        assert(message.subrange(8, 24) =~= asked);
        assert(payload.subrange(8, 24) =~= asking);
        match owner_of(ips, asked) {
            Some(node) => {
                let host = node_mac(mac, node);
                lemma_node_mac(mac, node);
                let draft = neighbor_advert(asked, host, 0);
                let checksum = internet_checksum(draft, 1, asked, asking, 58) as u16;
                let advert = neighbor_advert(asked, host, checksum);
                let packet = ndp_packet(asked, asking, advert);
                let reply = ethernet_frame(mac, host, 0x86dd, packet);
                lemma_frame_layout(mac, host, 0x86dd, packet);
                assert(reply == (decide_frame(
                    frame,
                    mac,
                    packet_information,
                    ips,
                    connected,
                )->Reply_frame));
                assert(reply[12] == be16(0x86dd)[0] && reply[13] == be16(0x86dd)[1]);
                assert(advert.len() == 32 && packet.len() == 72);
                assert forall|i: int| 0 <= i < 72 implies #[trigger] packet[i] == reply[14 + i] by {}
                let head = seq![0x60u8, 0u8, 0u8, 0u8, 0u8, 32u8, 58u8, 255u8];
                assert(be16(32u16)[0] == 0 && be16(32u16)[1] == 32);
                assert forall|i: int| 0 <= i < 8 implies #[trigger] head[i] == reply[14 + i] by {
                    assert(packet[i] == reply[14 + i]);
                }
                assert forall|i: int| 0 <= i < 16 implies #[trigger] asked[i] == reply[22 + i] by {
                    assert(packet[8 + i] == reply[14 + (8 + i)]);
                }
                assert forall|i: int| 0 <= i < 16 implies #[trigger] asking[i] == reply[38 + i] by {
                    assert(packet[24 + i] == reply[14 + (24 + i)]);
                }
                assert forall|i: int| 0 <= i < 32 implies #[trigger] advert[i] == reply[54 + i] by {
                    assert(packet[40 + i] == reply[14 + (40 + i)]);
                }
                assert(reply.skip(54) =~= advert);
                assert(advert[0] == reply[54] && advert[1] == reply[55]);
                let flags = seq![0x60u8, 0u8, 0u8, 0u8];
                assert forall|i: int| 0 <= i < 4 implies #[trigger] flags[i] == reply[58 + i] by {
                    assert(advert[4 + i] == reply[54 + (4 + i)]);
                }
                assert forall|i: int| 0 <= i < 16 implies #[trigger] asked[i] == reply[62 + i] by {
                    assert(advert[8 + i] == reply[54 + (8 + i)]);
                }
                assert(advert[24] == reply[78] && advert[25] == reply[79]);
                assert forall|i: int| 0 <= i < 6 implies #[trigger] host[i] == reply[80 + i] by {
                    assert(advert[26 + i] == reply[54 + (26 + i)]);
                }
                lemma_checksum_holds(asked, asking, host);
            },
            None => {},
        }
    }
}

/// The words of an ICMPv6 message and of the addresses between which it goes, with its length and its
/// protocol, add up to nothing in the arithmetic of checksums.
pub open spec fn checksum_holds(source: Seq<u8>, destination: Seq<u8>, message: Seq<u8>) -> bool {
    (word_sum(source, -1, 8) + word_sum(destination, -1, 8) + 58 + message.len() + word_sum(
        message,
        -1,
        (message.len() as int + 1) / 2,
    )) % 65535 == 0
}

proof fn lemma_checksum_holds(source: Seq<u8>, destination: Seq<u8>, mac: Seq<u8>)
    requires
        source.len() == 16,
        mac.len() == 6,
    ensures
        ({
            let draft = neighbor_advert(source, mac, 0);
            let checksum = internet_checksum(draft, 1, source, destination, 58) as u16;
            checksum_holds(source, destination, neighbor_advert(source, mac, checksum))
        }),
{
    let draft = neighbor_advert(source, mac, 0);
    let total = word_sum(source, -1, 8) + word_sum(destination, -1, 8) + 58 + 32 + word_sum(
        draft,
        1,
        16,
    );
    lemma_words_positive(source, -1, 8);
    lemma_words_positive(destination, -1, 8);
    lemma_words_positive(draft, 1, 16);
    let checksum = internet_checksum(draft, 1, source, destination, 58) as u16;
    let message = neighbor_advert(source, mac, checksum);
    assert(draft.len() == 32 && message.len() == 32);
    assert forall|i: int| 0 <= i < 32 && i != 2 && i != 3 implies #[trigger] draft[i]
        == message[i] by {}
    lemma_words_with_checksum(draft, message, 16);
    assert(message[2] == be16(checksum)[0] && message[3] == be16(checksum)[1]);
    assert(word_at(message, 1) == checksum);
    assert(checksum == 65535 - ((total - 1) % 65535 + 1));
}

proof fn lemma_words_positive(bytes: Seq<u8>, skipword: int, n: int)
    ensures
        word_sum(bytes, skipword, n) >= 0,
    decreases n,
{
    if n > 0 {
        lemma_words_positive(bytes, skipword, n - 1);
    }
}

proof fn lemma_words_with_checksum(draft: Seq<u8>, message: Seq<u8>, n: int)
    requires
        0 <= n <= 16,
        draft.len() == 32,
        message.len() == 32,
        forall|i: int| 0 <= i < 32 && i != 2 && i != 3 ==> #[trigger] draft[i] == message[i],
    ensures
        word_sum(message, -1, n) == word_sum(draft, 1, n) + if n > 1 {
            word_at(message, 1)
        } else {
            0
        },
    decreases n,
{
    if n > 0 {
        lemma_words_with_checksum(draft, message, n - 1);
        assert(n - 1 != 1 ==> draft[2 * (n - 1)] == message[2 * (n - 1)]);
        assert(n - 1 != 1 ==> draft[2 * (n - 1) + 1] == message[2 * (n - 1) + 1]);
    }
}

/// What a node has sent comes to this host as a frame from the host of that node. With type information
/// that tells the type, and what follows it is the payload; what is too short to hold it is dropped.
/// Without it the whole is the payload, and its first half byte tells which version of IP it is.
pub proof fn lemma_packets_delivered(
    packet: Seq<u8>,
    packet_information: bool,
    mac: Seq<u8>,
    peer: NodeId,
)
    requires
        mac.len() == 6,
        !packet_information ==> packet.len() > 0,
    ensures
        match delivered(packet, packet_information, mac, peer) {
            None => packet_information && packet.len() < 4,
            Some(frame) => {
                let start: int = if packet_information {
                    4
                } else {
                    0
                };
                &&& packet_information ==> packet.len() >= 4
                &&& frame.len() == 14 + packet.len() - start
                &&& stands_at(frame, 0, mac)
                &&& stands_at(frame, 6, node_mac(mac, peer))
                &&& forall|i: int| start <= i < packet.len() ==> #[trigger] packet[i] == frame[14 + i
                    - start]
                &&& packet_information ==> frame[12] == packet[2] && frame[13] == packet[3]
                &&& !packet_information && packet[0] / 16 == 4 ==> frame[12] == 0x08 && frame[13]
                    == 0x00
                &&& !packet_information && packet[0] / 16 != 4 ==> frame[12] == 0x86 && frame[13]
                    == 0xdd
            },
        },
{
    lemma_node_mac(mac, peer);
    let host = node_mac(mac, peer);
    if packet_information {
        if packet.len() >= 4 {
            let ethertype = from_be16(packet, 2) as u16;
            let payload = packet.skip(4);
            lemma_frame_layout(mac, host, ethertype, payload);
            let frame = ethernet_frame(mac, host, ethertype, payload);
            assert forall|i: int| 4 <= i < packet.len() implies #[trigger] packet[i] == frame[14 + i
                - 4] by {
                assert(payload[i - 4] == frame[14 + (i - 4)]);
            }
        }
    } else {
        let ethertype: u16 = if packet[0] / 16 == 4 {
            0x0800
        } else {
            0x86dd
        };
        lemma_frame_layout(mac, host, ethertype, packet);
        let frame = ethernet_frame(mac, host, ethertype, packet);
        assert(be16(0x0800)[0] == 0x08 && be16(0x0800)[1] == 0x00);
        assert(be16(0x86dd)[0] == 0x86 && be16(0x86dd)[1] == 0xdd);
        assert(frame[12] == be16(ethertype)[0] && frame[13] == be16(ethertype)[1]);
    }
}

/// Without type information the payload of a frame that carries IP reaches the other device unchanged,
/// under the type that it had.
pub proof fn lemma_ip_packets_survive(payload: Seq<u8>, ethertype: u16, mac: Seq<u8>, peer: NodeId)
    requires
        payload.len() > 0,
        (ethertype == 0x0800 && payload[0] / 16 == 4) || (ethertype == 0x86dd && payload[0] / 16
            == 6),
    ensures
        delivered(carried(false, ethertype, payload), false, mac, peer) == Some(
            ethernet_frame(mac, node_mac(mac, peer), ethertype, payload),
        ),
{
}

/// A node that has been connected counts as connected until it is disconnected; the other nodes are not
/// affected, and neither does a message to stop change anything.
pub proof fn lemma_connected_until_disconnected(senders: Set<NodeId>, node: NodeId, other: NodeId)
    requires
        node != other,
    ensures
        ({
            let connected = connected_after(senders, Some(SendLoopMessage::Connected(node)));
            let gone = connected_after(connected, Some(SendLoopMessage::Disconnected(node)));
            &&& connected.contains(node)
            &&& !gone.contains(node)
            &&& connected.contains(other) <==> senders.contains(other)
            &&& gone.contains(other) <==> senders.contains(other)
            &&& connected_after(senders, Some(SendLoopMessage::Stop)) == senders
            &&& connected_after(senders, None) == senders
        }),
{
}

/// Bytes of an odd number sum up as if a zero followed them.
pub proof fn lemma_odd_byte_padded(bytes: Seq<u8>, i: int)
    requires
        bytes.len() % 2 == 1,
        0 <= 2 * i < bytes.len(),
    ensures
        word_at(bytes, i) == word_at(bytes.push(0u8), i),
        2 * i + 1 < bytes.len() ==> word_at(bytes, i) == bytes[2 * i] * 256 + bytes[2 * i + 1],
        2 * i + 1 == bytes.len() ==> word_at(bytes, i) == bytes[2 * i] * 256,
{
}

/// A folded sum fits in a word, leaves the same rest as the sum, and is nothing only for nothing.
pub proof fn lemma_folding(sum: int)
    requires
        0 <= sum,
    ensures
        0 <= folded(sum) <= 65535,
        folded(sum) % 65535 == sum % 65535,
        folded(sum) == 0 <==> sum == 0,
        sum <= 65535 ==> folded(sum) == sum,
{
}

/// Nothing sums up to nothing, and each word adds itself, but for the one that is left out.
pub proof fn lemma_words_add_up(bytes: Seq<u8>, skipword: int, n: int)
    requires
        0 <= n,
        2 * n + 1 < bytes.len(),
    ensures
        word_sum(bytes, skipword, 0) == 0,
        n != skipword ==> word_sum(bytes, skipword, n + 1) == word_sum(bytes, skipword, n) + bytes[2
            * n] * 256 + bytes[2 * n + 1],
        word_sum(bytes, n, n + 1) == word_sum(bytes, n, n),
{
}

} // verus!
