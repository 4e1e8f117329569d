//! The Ethernet device: all nodes appear as hosts on one link.
//!
//! The host of a node has a MAC address that ends in the address of the node, so that frames can be
//! delivered without looking addresses up. Requests for the MAC address of an IP address, ARP and
//! NDP, are answered on the spot from what the nodes have announced; the payloads of all other
//! frames go to the nodes.

use vstd::prelude::*;
use std::collections::HashSet;
use crate::addr::IpAddr;
use crate::packet::NodeId;
use crate::tables::set_members;
use super::frame::{be32, be32_bytes, from_be32};
use super::registry::{find_owner, owner_of, IpEntry};
use super::tun::{Received, RecvStep};
use pnet_packet::arp::{ArpHardwareType, ArpOperation, MutableArpPacket};
use pnet_packet::ethernet::{EtherType, MutableEthernetPacket};
use pnet_packet::icmpv6::ndp::{MutableNeighborAdvertPacket, NdpOption, NdpOptionType};
use pnet_packet::icmpv6::{Icmpv6Code, Icmpv6Type};
use pnet_packet::ip::IpNextHeaderProtocol;
use pnet_packet::ipv6::MutableIpv6Packet;
use pnet_packet::Packet;

verus! {

broadcast use vstd::std_specs::hash::group_hash_axioms;

/// Types of Ethernet frames.
pub const ETHERTYPE_IPV4: u16 = 0x0800;

pub const ETHERTYPE_ARP: u16 = 0x0806;

pub const ETHERTYPE_IPV6: u16 = 0x86dd;

/// The protocol number of ICMPv6.
pub const PROTOCOL_ICMPV6: u8 = 58;

/// Types of ICMPv6 messages.
pub const NEIGHBOR_SOLICIT: u8 = 135;

pub const NEIGHBOR_ADVERT: u8 = 136;

/// The longest payload of a frame that is handed to the device.
pub const LONGEST_PAYLOAD: usize = 1986;

/// The header of an Ethernet frame.
#[derive(Clone, Copy, Debug)]
pub struct EthernetHeader {
    pub destination: [u8; 6],
    pub source: [u8; 6],
    pub ethertype: u16,
}

/// What is read from the header of an IPv6 packet.
#[derive(Clone, Copy, Debug)]
pub struct Ipv6Header {
    pub next_header: u8,
    pub source: [u8; 16],
    /// How many bytes of payload there are.
    pub payload_len: usize,
}

/// The fields of an ARP packet for IPv4 over Ethernet.
#[derive(Clone, Copy, Debug)]
pub struct ArpFields {
    pub hardware_type: u16,
    pub protocol_type: u16,
    pub hw_addr_len: u8,
    pub proto_addr_len: u8,
    pub operation: u16,
    pub sender_hw_addr: [u8; 6],
    pub sender_proto_addr: [u8; 4],
    pub target_hw_addr: [u8; 6],
    pub target_proto_addr: [u8; 4],
}

/// The fields of a neighbour advertisement with one option that holds a MAC address.
#[derive(Clone, Copy, Debug)]
pub struct AdvertFields {
    pub kind: u8,
    pub code: u8,
    pub checksum: u16,
    pub flags: u8,
    pub target: [u8; 16],
    pub option_type: u8,
    pub option_length: u8,
    pub mac: [u8; 6],
}

/// The fields of an IPv6 header without traffic class and flow label.
#[derive(Clone, Copy, Debug)]
pub struct Ipv6Fields {
    pub version: u8,
    pub payload_length: u16,
    pub next_header: u8,
    pub hop_limit: u8,
    pub source: [u8; 16],
    pub destination: [u8; 16],
}

/// A number of 16 bits as two bytes, most significant first.
pub open spec fn be16(n: u16) -> Seq<u8> {
    seq![(n / 0x100) as u8, (n % 0x100) as u8]
}

/// The number that two bytes are.
pub open spec fn from_be16(bytes: Seq<u8>, at: int) -> int {
    bytes[at] * 0x100 + bytes[at + 1]
}

/// The smaller one.
pub open spec fn smaller(a: int, b: int) -> int {
    if a <= b {
        a
    } else {
        b
    }
}

/// The payload of an IPv6 packet: as long as its header says, but no longer than the packet.
pub open spec fn ipv6_payload(packet: Seq<u8>) -> Seq<u8> {
    packet.subrange(40, smaller(40 + from_be16(packet, 4), packet.len() as int))
}

/// An Ethernet frame.
pub open spec fn ethernet_frame(
    destination: Seq<u8>,
    source: Seq<u8>,
    ethertype: u16,
    payload: Seq<u8>,
) -> Seq<u8> {
    destination + source + be16(ethertype) + payload
}

/// An ARP packet.
pub open spec fn arp_packet(fields: ArpFields) -> Seq<u8> {
    be16(fields.hardware_type) + be16(fields.protocol_type) + seq![
        fields.hw_addr_len,
        fields.proto_addr_len,
    ] + be16(fields.operation) + fields.sender_hw_addr@ + fields.sender_proto_addr@
        + fields.target_hw_addr@ + fields.target_proto_addr@
}

/// A neighbour advertisement.
pub open spec fn advert_message(fields: AdvertFields) -> Seq<u8> {
    seq![fields.kind, fields.code] + be16(fields.checksum) + seq![fields.flags, 0u8, 0u8, 0u8]
        + fields.target@ + seq![fields.option_type, fields.option_length] + fields.mac@
}

/// An IPv6 packet.
pub open spec fn ipv6_packet(fields: Ipv6Fields, payload: Seq<u8>) -> Seq<u8> {
    seq![(fields.version * 16) as u8, 0u8, 0u8, 0u8] + be16(fields.payload_length) + seq![
        fields.next_header,
        fields.hop_limit,
    ] + fields.source@ + fields.destination@ + payload
}

/// Word `i` of some bytes; a last single byte is the upper half of a word.
pub open spec fn word_at(bytes: Seq<u8>, i: int) -> int {
    bytes[2 * i] * 0x100 + if 2 * i + 1 < bytes.len() {
        bytes[2 * i + 1] as int
    } else {
        0
    }
}

/// The sum of the first `n` words without the one at `skipword`.
pub open spec fn word_sum(bytes: Seq<u8>, skipword: int, n: int) -> int
    decreases n,
{
    if n <= 0 {
        0
    } else {
        word_sum(bytes, skipword, n - 1) + if n - 1 == skipword {
            0
        } else {
            word_at(bytes, n - 1)
        }
    }
}

/// A sum folded into a word: what overflows is added at the other end.
pub open spec fn folded(sum: int) -> int {
    if sum == 0 {
        0
    } else {
        (sum - 1) % 0xffff + 1
    }
}

/// The Internet checksum of a message over IPv6, without the word at `skipword`: the complement of
/// the sum of the message, its length, its protocol and its addresses.
pub open spec fn internet_checksum(
    message: Seq<u8>,
    skipword: int,
    source: Seq<u8>,
    destination: Seq<u8>,
    protocol: u8,
) -> int {
    0xffff - folded(
        word_sum(source, -1, 8) + word_sum(destination, -1, 8) + protocol + message.len()
            + word_sum(message, skipword, (message.len() as int + 1) / 2),
    )
}

/// An ARP reply that tells that the host with the IP address `sender_ip` has the MAC address
/// `sender_mac`.
pub open spec fn arp_reply(
    sender_mac: Seq<u8>,
    sender_ip: Seq<u8>,
    target_mac: Seq<u8>,
    target_ip: Seq<u8>,
) -> Seq<u8> {
    seq![0u8, 1u8, 8u8, 0u8, 6u8, 4u8, 0u8, 2u8] + sender_mac + sender_ip + target_mac + target_ip
}

/// An ICMPv6 message that tells that the host with the IP address `target` has the MAC address `mac`.
pub open spec fn neighbor_advert(target: Seq<u8>, mac: Seq<u8>, checksum: u16) -> Seq<u8> {
    seq![136u8, 0u8] + be16(checksum) + seq![0x60u8, 0u8, 0u8, 0u8] + target + seq![2u8, 1u8] + mac
}

/// An IPv6 packet with an ICMPv6 message.
pub open spec fn ndp_packet(source: Seq<u8>, destination: Seq<u8>, message: Seq<u8>) -> Seq<u8> {
    seq![0x60u8, 0u8, 0u8, 0u8] + be16(message.len() as u16) + seq![58u8, 255u8] + source
        + destination + message
}

/// `EthernetPacket` of the crate `pnet_packet`: a frame has at least 14 bytes, of which the first six
/// are the destination, the next six the source, and the last two the type.
#[verifier::external_body]
fn read_ethernet(frame: &[u8]) -> (result: Option<EthernetHeader>)
    ensures
        result is Some <==> frame@.len() >= 14,
        result matches Some(header) ==> header.destination@ == frame@.subrange(0, 6)
            && header.source@ == frame@.subrange(6, 12) && header.ethertype == from_be16(frame@, 12),
{
    let packet = pnet_packet::ethernet::EthernetPacket::new(frame)?;
    Some(EthernetHeader {
        destination: packet.get_destination().octets(),
        source: packet.get_source().octets(),
        ethertype: packet.get_ethertype().0,
    })
}

/// `ArpPacket` of the crate `pnet_packet`: a packet has at least 28 bytes; the protocol address of
/// the sender is at byte 14, that of the target at byte 24.
#[verifier::external_body]
fn read_arp(packet: &[u8]) -> (result: Option<([u8; 4], [u8; 4])>)
    ensures
        result is Some <==> packet@.len() >= 28,
        result matches Some((sender, target)) ==> sender@ == packet@.subrange(14, 18) && target@
            == packet@.subrange(24, 28),
{
    let packet = pnet_packet::arp::ArpPacket::new(packet)?;
    Some((packet.get_sender_proto_addr().octets(), packet.get_target_proto_addr().octets()))
}

/// `Ipv6Packet` of the crate `pnet_packet`: a packet has at least 40 bytes; the next header is at byte
/// 6, the source at byte 8; the payload begins at byte 40 and is as long as bytes 4 and 5 say, or as
/// the packet allows.
#[verifier::external_body]
fn read_ipv6(packet: &[u8]) -> (result: Option<Ipv6Header>)
    ensures
        result is Some <==> packet@.len() >= 40,
        result matches Some(header) ==> header.next_header == packet@[6] && header.source@
            == packet@.subrange(8, 24) && header.payload_len == ipv6_payload(packet@).len(),
{
    let packet = pnet_packet::ipv6::Ipv6Packet::new(packet)?;
    Some(Ipv6Header {
        next_header: packet.get_next_header().0,
        source: packet.get_source().octets(),
        payload_len: packet.payload().len(),
    })
}

/// `Icmpv6Packet` of the crate `pnet_packet`: a message has at least four bytes, and its type is the
/// first.
#[verifier::external_body]
fn read_icmpv6_type(message: &[u8]) -> (result: Option<u8>)
    ensures
        result is Some <==> message@.len() >= 4,
        result matches Some(kind) ==> kind == message@[0],
{
    let message = pnet_packet::icmpv6::Icmpv6Packet::new(message)?;
    Some(message.get_icmpv6_type().0)
}

/// `NeighborSolicitPacket` of the crate `pnet_packet`: a message has at least 24 bytes, and the
/// address that is asked for is at byte 8.
#[verifier::external_body]
fn read_neighbor_solicit(message: &[u8]) -> (result: Option<[u8; 16]>)
    ensures
        result is Some <==> message@.len() >= 24,
        result matches Some(target) ==> target@ == message@.subrange(8, 24),
{
    let message = pnet_packet::icmpv6::ndp::NeighborSolicitPacket::new(message)?;
    Some(message.get_target_addr().octets())
}

/// `MutableEthernetPacket` of the crate `pnet_packet`, whose setters write the parts of a frame to
/// their places in a buffer, which just holds the frame.
#[verifier::external_body]
fn write_ethernet(
    frame: &mut Vec<u8>,
    destination: &[u8; 6],
    source: &[u8; 6],
    ethertype: u16,
    payload: &[u8],
)
    requires
        old(frame)@.len() == 14 + payload@.len(),
    ensures
        final(frame)@ == ethernet_frame(destination@, source@, ethertype, payload@),
{
    let mut packet = MutableEthernetPacket::new(frame).unwrap();
    packet.set_destination((*destination).into());
    packet.set_source((*source).into());
    packet.set_ethertype(EtherType(ethertype));
    packet.set_payload(payload);
}

/// `MutableArpPacket` of the crate `pnet_packet`, whose setters write the fields of a packet to their
/// places in a buffer, which just holds the packet.
#[verifier::external_body]
fn write_arp(packet: &mut Vec<u8>, fields: &ArpFields)
    requires
        old(packet)@.len() == 28,
    ensures
        final(packet)@ == arp_packet(*fields),
{
    let mut arp = MutableArpPacket::new(packet).unwrap();
    arp.set_hardware_type(ArpHardwareType(fields.hardware_type));
    arp.set_protocol_type(EtherType(fields.protocol_type));
    arp.set_hw_addr_len(fields.hw_addr_len);
    arp.set_proto_addr_len(fields.proto_addr_len);
    arp.set_operation(ArpOperation(fields.operation));
    arp.set_sender_hw_addr(fields.sender_hw_addr.into());
    arp.set_sender_proto_addr(fields.sender_proto_addr.into());
    arp.set_target_hw_addr(fields.target_hw_addr.into());
    arp.set_target_proto_addr(fields.target_proto_addr.into());
}

/// `MutableNeighborAdvertPacket` of the crate `pnet_packet`, whose setters write the fields of a
/// message and its option to their places in a buffer of zeros, which just holds the message. The
/// length of the option is in units of eight bytes, and the setters panic where it is not that of an
/// option with six bytes of data.
#[verifier::external_body]
fn write_neighbor_advert(message: &mut Vec<u8>, fields: &AdvertFields)
    requires
        old(message)@ == blank(32),
        fields.option_length == 1,
    ensures
        final(message)@ == advert_message(*fields),
{
    let mut advert = MutableNeighborAdvertPacket::new(message).unwrap();
    advert.set_icmpv6_type(Icmpv6Type(fields.kind));
    advert.set_icmpv6_code(Icmpv6Code(fields.code));
    advert.set_checksum(fields.checksum);
    advert.set_flags(fields.flags);
    advert.set_target_addr(fields.target.into());
    let option_type = NdpOptionType(fields.option_type);
    let length = fields.option_length;
    advert.set_options(&[NdpOption { option_type, length, data: fields.mac.to_vec() }]);
}

/// `MutableIpv6Packet` of the crate `pnet_packet`, whose setters write the fields and the payload of a
/// packet to their places in a buffer of zeros, which just holds the packet.
#[verifier::external_body]
fn write_ipv6(packet: &mut Vec<u8>, fields: &Ipv6Fields, payload: &[u8])
    requires
        old(packet)@ == blank(40 + payload@.len()),
        fields.payload_length == payload@.len(),
        fields.version < 16,
    ensures
        final(packet)@ == ipv6_packet(*fields, payload@),
{
    let mut ipv6 = MutableIpv6Packet::new(packet).unwrap();
    ipv6.set_version(fields.version);
    ipv6.set_payload_length(fields.payload_length);
    ipv6.set_next_header(IpNextHeaderProtocol(fields.next_header));
    ipv6.set_hop_limit(fields.hop_limit);
    ipv6.set_source(fields.source.into());
    ipv6.set_destination(fields.destination.into());
    ipv6.set_payload(payload);
}

/// `util::ipv6_checksum` of the crate `pnet_packet`, without extra data: the Internet checksum of the
/// message and its pseudo-header, without one of the words of the message. The sum of the words fits
/// in 32 bits for messages that fit in a packet.
#[verifier::external_body]
fn checksum_ipv6(
    message: &[u8],
    skipword: usize,
    source: &[u8; 16],
    destination: &[u8; 16],
    protocol: u8,
) -> (checksum: u16)
    requires
        message@.len() <= 0xffff,
    ensures
        checksum == internet_checksum(message@, skipword as int, source@, destination@, protocol),
{
    pnet_packet::util::ipv6_checksum(
        message,
        skipword,
        &[],
        &(*source).into(),
        &(*destination).into(),
        IpNextHeaderProtocol(protocol),
    )
}

/// A run of zeros.
pub open spec fn blank(len: nat) -> Seq<u8> {
    Seq::new(len, |i: int| 0u8)
}

/// A buffer of zeros.
fn blank_bytes(len: usize) -> (bytes: Vec<u8>)
    ensures
        bytes@ == blank(len as nat),
{
    let mut bytes: Vec<u8> = Vec::new();
    while bytes.len() < len
        invariant
            bytes.len() <= len,
            forall|i: int| 0 <= i < bytes.len() ==> bytes[i] == 0,
        decreases len - bytes.len(),
    {
        bytes.push(0);
    }
    assert(bytes@ =~= blank(len as nat));
    bytes
}

/// An Ethernet frame.
fn make_frame(destination: &[u8; 6], source: &[u8; 6], ethertype: u16, payload: &[u8]) -> (frame: Vec<
    u8,
>)
    requires
        payload@.len() <= LONGEST_PAYLOAD,
    ensures
        frame@ == ethernet_frame(destination@, source@, ethertype, payload@),
{
    let mut frame = blank_bytes(14 + payload.len());
    write_ethernet(&mut frame, destination, source, ethertype, payload);
    frame
}

/// A neighbour advertisement.
fn make_advert(target: &[u8; 16], mac: &[u8; 6], checksum: u16) -> (message: Vec<u8>)
    ensures
        message@ == neighbor_advert(target@, mac@, checksum),
        message@.len() == 32,
{
    let mut message = blank_bytes(32);
    let fields = AdvertFields {
        kind: NEIGHBOR_ADVERT,
        code: 0,
        checksum,
        flags: 0x60,
        target: *target,
        option_type: 2,
        option_length: 1,
        mac: *mac,
    };
    write_neighbor_advert(&mut message, &fields);
    message
}

/// Which of the two messages of NDP.
#[derive(Clone, Copy, PartialEq, Eq, Structural, Debug)]
pub enum NsNa {
    Ns,
    Na,
}

/// The frame carries this message of NDP.
pub open spec fn is_ndp_frame(ethertype: u16, payload: Seq<u8>, n: NsNa) -> bool {
    &&& ethertype == ETHERTYPE_IPV6
    &&& payload.len() >= 40
    &&& payload[6] == PROTOCOL_ICMPV6
    &&& ipv6_payload(payload).len() >= 4
    &&& ipv6_payload(payload)[0] == match n {
        NsNa::Ns => NEIGHBOR_SOLICIT,
        NsNa::Na => NEIGHBOR_ADVERT,
    }
}

/// The MAC address of the host of a node: the first two bytes are those of all hosts of the mesh.
pub open spec fn node_mac(device_mac: Seq<u8>, node: NodeId) -> Seq<u8> {
    device_mac.take(2) + be32(node as int)
}

/// The first byte of a MAC address of one host, administered locally.
pub open spec fn local_unicast(byte: u8) -> u8 {
    (byte / 4 * 4 + 2) as u8
}

/// The MAC address of this host.
pub open spec fn tap_mac(prefix: u16, node: NodeId) -> Seq<u8> {
    seq![local_unicast((prefix / 0x100) as u8), (prefix % 0x100) as u8] + be32(node as int)
}

/// What is sent to a node for a frame: the payload, with four bytes before it that tell its type, if
/// they are wanted.
pub open spec fn carried(packet_information: bool, ethertype: u16, payload: Seq<u8>) -> Seq<u8> {
    if packet_information {
        seq![0u8, 0u8] + be16(ethertype) + payload
    } else {
        payload
    }
}

/// What is done with a frame.
pub enum TapAction {
    /// Nothing.
    Ignore,
    /// Send this to every connected node.
    Broadcast { packet: Vec<u8> },
    /// Send this to one node.
    Send { node: NodeId, packet: Vec<u8> },
    /// Hand this frame back to the device.
    Reply { frame: Vec<u8> },
}

/// What is done with a frame.
#[verifier::ext_equal]
pub enum TapDecision {
    Ignore,
    Broadcast { packet: Seq<u8> },
    Send { node: NodeId, packet: Seq<u8> },
    Reply { frame: Seq<u8> },
}

impl View for TapAction {
    type V = TapDecision;

    open spec fn view(&self) -> TapDecision {
        match self {
            TapAction::Ignore => TapDecision::Ignore,
            TapAction::Broadcast { packet } => TapDecision::Broadcast { packet: packet@ },
            TapAction::Send { node, packet } => TapDecision::Send { node: *node, packet: packet@ },
            TapAction::Reply { frame } => TapDecision::Reply { frame: frame@ },
        }
    }
}

/// The answer to an ARP request: that the IP address belongs to the host of the node that announced
/// it. There is none for an address that nobody announced.
pub open spec fn answer_arp(payload: Seq<u8>, device_mac: Seq<u8>, ips: Seq<IpEntry>) -> TapDecision {
    if payload.len() < 28 {
        TapDecision::Ignore
    } else {
        let asked = payload.subrange(24, 28);
        let asking = payload.subrange(14, 18);
        match owner_of(ips, asked) {
            None => TapDecision::Ignore,
            Some(node) => {
                let mac = node_mac(device_mac, node);
                TapDecision::Reply {
                    frame: ethernet_frame(
                        device_mac,
                        mac,
                        ETHERTYPE_ARP,
                        arp_reply(mac, asked, device_mac, asking),
                    ),
                }
            },
        }
    }
}

/// The answer to a neighbour solicitation.
pub open spec fn answer_ndp(payload: Seq<u8>, device_mac: Seq<u8>, ips: Seq<IpEntry>) -> TapDecision {
    let message = ipv6_payload(payload);
    if message.len() < 24 {
        TapDecision::Ignore
    } else {
        let asked = message.subrange(8, 24);
        let asking = payload.subrange(8, 24);
        match owner_of(ips, asked) {
            None => TapDecision::Ignore,
            Some(node) => {
                let mac = node_mac(device_mac, node);
                let checksum = internet_checksum(
                    neighbor_advert(asked, mac, 0),
                    1,
                    asked,
                    asking,
                    PROTOCOL_ICMPV6,
                ) as u16;
                TapDecision::Reply {
                    frame: ethernet_frame(
                        device_mac,
                        mac,
                        ETHERTYPE_IPV6,
                        ndp_packet(asked, asking, neighbor_advert(asked, mac, checksum)),
                    ),
                }
            },
        }
    }
}

/// What is done with a frame from the device.
pub open spec fn decide_frame(
    frame: Seq<u8>,
    device_mac: Seq<u8>,
    packet_information: bool,
    ips: Seq<IpEntry>,
    connected: Set<NodeId>,
) -> TapDecision {
    if frame.len() < 14 || frame.subrange(6, 12) != device_mac {
        TapDecision::Ignore
    } else {
        let ethertype = from_be16(frame, 12) as u16;
        let payload = frame.skip(14);
        if frame[0] % 2 == 1 {
            if ethertype == ETHERTYPE_ARP {
                answer_arp(payload, device_mac, ips)
            } else if is_ndp_frame(ethertype, payload, NsNa::Ns) {
                answer_ndp(payload, device_mac, ips)
            } else {
                TapDecision::Broadcast { packet: carried(packet_information, ethertype, payload) }
            }
        } else if frame[0] != device_mac[0] || frame[1] != device_mac[1] {
            TapDecision::Ignore
        } else if ethertype == ETHERTYPE_ARP || is_ndp_frame(ethertype, payload, NsNa::Na) {
            TapDecision::Ignore
        } else {
            let node = from_be32(frame.subrange(2, 6)) as NodeId;
            if connected.contains(node) {
                TapDecision::Send { node, packet: carried(packet_information, ethertype, payload) }
            } else {
                TapDecision::Ignore
            }
        }
    }
}

/// The frame for the device that carries what a node has sent; none where it is too short to tell
/// its type.
pub open spec fn delivered(
    packet: Seq<u8>,
    packet_information: bool,
    device_mac: Seq<u8>,
    peer: NodeId,
) -> Option<Seq<u8>> {
    let mac = node_mac(device_mac, peer);
    if packet_information {
        if packet.len() < 4 {
            None
        } else {
            Some(
                ethernet_frame(device_mac, mac, from_be16(packet, 2) as u16, packet.skip(4)),
            )
        }
    } else {
        let ethertype = if packet[0] / 16 == 4 {
            ETHERTYPE_IPV4
        } else {
            ETHERTYPE_IPV6
        };
        Some(ethernet_frame(device_mac, mac, ethertype, packet))
    }
}

/// The MAC address of the host of a node.
pub fn mac_of(device_mac: &[u8; 6], node: NodeId) -> (mac: [u8; 6])
    ensures
        mac@ == node_mac(device_mac@, node),
{
    let id = be32_bytes(node);
    let mac = [device_mac[0], device_mac[1], id[0], id[1], id[2], id[3]];
    assert(mac@ =~= node_mac(device_mac@, node));
    mac
}

/// The MAC address of this host.
pub fn make_tap_mac(prefix: u16, node: NodeId) -> (mac: [u8; 6])
    ensures
        mac@ == tap_mac(prefix, node),
{
    let first = (prefix / 0x100) as u8;
    let id = be32_bytes(node);
    let mac = [first / 4 * 4 + 2, (prefix % 0x100) as u8, id[0], id[1], id[2], id[3]];
    assert(mac@ =~= tap_mac(prefix, node));
    mac
}

/// Whether a frame with this type and payload carries this message of NDP.
pub fn is_ndp(ethertype: u16, payload: &[u8], n: NsNa) -> (result: bool)
    ensures
        result == is_ndp_frame(ethertype, payload@, n),
{
    if ethertype != ETHERTYPE_IPV6 {
        return false;
    }
    let header = match read_ipv6(payload) {
        Some(header) => header,
        None => {
            return false;
        },
    };
    if header.next_header != PROTOCOL_ICMPV6 {
        return false;
    }
    let message = vstd::slice::slice_subrange(payload, 40, 40 + header.payload_len);
    assert(message@ =~= ipv6_payload(payload@));
    match read_icmpv6_type(message) {
        Some(kind) => match n {
            NsNa::Ns => kind == NEIGHBOR_SOLICIT,
            NsNa::Na => kind == NEIGHBOR_ADVERT,
        },
        None => false,
    }
}

/// What is sent to a node for a frame.
fn carry(packet_information: bool, ethertype: u16, payload: &[u8]) -> (packet: Vec<u8>)
    ensures
        packet@ == carried(packet_information, ethertype, payload@),
{
    let mut packet: Vec<u8> = Vec::new();
    if packet_information {
        packet.push(0);
        packet.push(0);
        packet.push((ethertype / 0x100) as u8);
        packet.push((ethertype % 0x100) as u8);
    }
    packet.extend_from_slice(payload);
    assert(packet@ =~= carried(packet_information, ethertype, payload@));
    packet
}

/// The answer to an ARP request.
pub fn send_arp_reply(payload: &[u8], device_mac: &[u8; 6], ips: &Vec<IpEntry>) -> (action: TapAction)
    ensures
        action@ == answer_arp(payload@, device_mac@, ips@),
{
    match read_arp(payload) {
        None => TapAction::Ignore,
        Some((asking, asked)) => match find_owner(ips, &IpAddr::V4(asked)) {
            None => TapAction::Ignore,
            Some(node) => {
                let mac = mac_of(device_mac, node);
                let fields = ArpFields {
                    hardware_type: 1,
                    protocol_type: ETHERTYPE_IPV4,
                    hw_addr_len: 6,
                    proto_addr_len: 4,
                    operation: 2,
                    sender_hw_addr: mac,
                    sender_proto_addr: asked,
                    target_hw_addr: *device_mac,
                    target_proto_addr: asking,
                };
                let mut reply = blank_bytes(28);
                write_arp(&mut reply, &fields);
                assert(reply@ =~= arp_reply(mac@, asked@, device_mac@, asking@));
                TapAction::Reply { frame: make_frame(device_mac, &mac, ETHERTYPE_ARP, &reply) }
            },
        },
    }
}

/// The answer to a neighbour solicitation.
pub fn send_ndp_na(payload: &[u8], device_mac: &[u8; 6], ips: &Vec<IpEntry>) -> (action: TapAction)
    requires
        payload@.len() >= 40,
    ensures
        action@ == answer_ndp(payload@, device_mac@, ips@),
{
    let header = match read_ipv6(payload) {
        Some(header) => header,
        None => {
            return TapAction::Ignore;
        },
    };
    let message = vstd::slice::slice_subrange(payload, 40, 40 + header.payload_len);
    assert(message@ =~= ipv6_payload(payload@));
    match read_neighbor_solicit(message) {
        None => TapAction::Ignore,
        Some(asked) => match find_owner(ips, &IpAddr::V6(asked)) {
            None => TapAction::Ignore,
            Some(node) => {
                let mac = mac_of(device_mac, node);
                let asking = header.source;
                let draft = make_advert(&asked, &mac, 0);
                let checksum = checksum_ipv6(&draft, 1, &asked, &asking, PROTOCOL_ICMPV6);
                let advert = make_advert(&asked, &mac, checksum);
                let fields = Ipv6Fields {
                    version: 6,
                    payload_length: 32,
                    next_header: PROTOCOL_ICMPV6,
                    hop_limit: 255,
                    source: asked,
                    destination: asking,
                };
                let mut packet = blank_bytes(72);
                write_ipv6(&mut packet, &fields, &advert);
                assert(packet@ =~= ndp_packet(asked@, asking@, advert@));
                TapAction::Reply { frame: make_frame(device_mac, &mac, ETHERTYPE_IPV6, &packet) }
            },
        },
    }
}

/// A message to the sending side of the device.
#[derive(Clone, Copy, PartialEq, Eq, Structural, Debug)]
pub enum SendLoopMessage {
    Stop,
    Connected(NodeId),
    Disconnected(NodeId),
}

/// The connected nodes after a message.
pub open spec fn connected_after(senders: Set<NodeId>, message: Option<SendLoopMessage>) -> Set<NodeId> {
    match message {
        Some(SendLoopMessage::Connected(node)) => senders.insert(node),
        Some(SendLoopMessage::Disconnected(node)) => senders.remove(node),
        _ => senders,
    }
}

/// The Ethernet device.
pub struct TapManager {
    pub enable_packet_information: bool,
    pub tap_mac: [u8; 6],
    /// The nodes that are connected.
    pub senders: HashSet<NodeId>,
}

impl TapManager {
    /// The device of node `node_id`. No node is connected yet.
    pub fn new(node_id: NodeId, tap_mac_prefix: u16, enable_packet_information: bool) -> (tap:
        TapManager)
        ensures
            tap.enable_packet_information == enable_packet_information,
            tap.tap_mac@ == tap_mac(tap_mac_prefix, node_id),
            tap.senders@ == Set::<NodeId>::empty(),
    {
        TapManager {
            enable_packet_information,
            tap_mac: make_tap_mac(tap_mac_prefix, node_id),
            senders: HashSet::new(),
        }
    }

    /// Takes a message, and tells whether to go on; without one, the sending side ends.
    pub fn handle_message(&mut self, message: Option<SendLoopMessage>) -> (go_on: bool)
        ensures
            go_on == match message {
                None | Some(SendLoopMessage::Stop) => false,
                _ => true,
            },
            final(self).senders@ == connected_after(old(self).senders@, message),
            final(self).senders@ == match message {
                Some(SendLoopMessage::Connected(node)) => old(self).senders@.insert(node),
                Some(SendLoopMessage::Disconnected(node)) => old(self).senders@.remove(node),
                _ => old(self).senders@,
            },
            final(self).enable_packet_information == old(self).enable_packet_information,
            final(self).tap_mac == old(self).tap_mac,
    {
        match message {
            None => false,
            Some(SendLoopMessage::Stop) => false,
            Some(SendLoopMessage::Connected(node)) => {
                self.senders.insert(node);
                true
            },
            Some(SendLoopMessage::Disconnected(node)) => {
                self.senders.remove(&node);
                true
            },
        }
    }

    /// The connected nodes, each once, in no particular order.
    pub fn connected_nodes(&self) -> (nodes: Vec<NodeId>)
        ensures
            nodes@.no_duplicates(),
            nodes@.to_set() == self.senders@,
    {
        set_members(&self.senders)
    }

    /// What is done with a frame from the device, where `ips` tells who announced which address.
    pub fn handle_frame(&self, frame: &[u8], ips: &Vec<IpEntry>) -> (action: TapAction)
        ensures
            action@ == decide_frame(
                frame@,
                self.tap_mac@,
                self.enable_packet_information,
                ips@,
                self.senders@,
            ),
    {
        let header = match read_ethernet(frame) {
            Some(header) => header,
            None => {
                return TapAction::Ignore;
            },
        };
        if !crate::addr::same_octets(&header.source, &self.tap_mac) {
            return TapAction::Ignore;
        }
        let payload = vstd::slice::slice_subrange(frame, 14, frame.len());
        assert(payload@ =~= frame@.skip(14));
        let destination = header.destination;
        assert(destination@[0] == frame@[0] && destination@[1] == frame@[1]);
        if destination[0] % 2 == 1 {
            if header.ethertype == ETHERTYPE_ARP {
                return send_arp_reply(payload, &self.tap_mac, ips);
            }
            if is_ndp(header.ethertype, payload, NsNa::Ns) {
                return send_ndp_na(payload, &self.tap_mac, ips);
            }
            return TapAction::Broadcast {
                packet: carry(self.enable_packet_information, header.ethertype, payload),
            };
        }
        if destination[0] != self.tap_mac[0] || destination[1] != self.tap_mac[1] {
            return TapAction::Ignore;
        }
        if header.ethertype == ETHERTYPE_ARP || is_ndp(header.ethertype, payload, NsNa::Na) {
            return TapAction::Ignore;
        }
        let node: NodeId = destination[2] as u32 * 0x100_0000 + destination[3] as u32 * 0x1_0000
            + destination[4] as u32 * 0x100 + destination[5] as u32;
        proof {
            let tail = frame@.subrange(2, 6);
            assert(tail[0] == destination@[2] && tail[1] == destination@[3] && tail[2]
                == destination@[4] && tail[3] == destination@[5]);
        }
        if self.senders.contains(&node) {
            TapAction::Send {
                node,
                packet: carry(self.enable_packet_information, header.ethertype, payload),
            }
        } else {
            TapAction::Ignore
        }
    }

    /// What follows from what a node has sent. What is too short to tell its type is dropped.
    pub fn recv_loop(&self, received: Received, peer: NodeId) -> (step: RecvStep)
        requires
            received matches Received::Packet(packet) ==> fits_device(
                packet@,
                self.enable_packet_information,
            ),
        ensures
            match received {
                Received::Packet(packet) => match delivered(
                    packet@,
                    self.enable_packet_information,
                    self.tap_mac@,
                    peer,
                ) {
                    Some(frame) => step matches RecvStep::Deliver(f) && f@ == frame,
                    None => step == RecvStep::Wait,
                },
                Received::Closed => step == RecvStep::Stop,
                Received::Failed => step == RecvStep::Wait,
            },
    {
        match received {
            Received::Packet(packet) => match self.deliver(packet.as_slice(), peer) {
                Some(frame) => RecvStep::Deliver(frame),
                None => RecvStep::Wait,
            },
            Received::Closed => RecvStep::Stop,
            Received::Failed => RecvStep::Wait,
        }
    }

    /// The frame for the device that carries what a node has sent.
    pub fn deliver(&self, packet: &[u8], peer: NodeId) -> (result: Option<Vec<u8>>)
        requires
            fits_device(packet@, self.enable_packet_information),
        ensures
            match result {
                Some(frame) => delivered(
                    packet@,
                    self.enable_packet_information,
                    self.tap_mac@,
                    peer,
                ) == Some(frame@),
                None => delivered(
                    packet@,
                    self.enable_packet_information,
                    self.tap_mac@,
                    peer,
                ) is None,
            },
    {
        let mac = mac_of(&self.tap_mac, peer);
        if self.enable_packet_information {
            if packet.len() < 4 {
                return None;
            }
            let ethertype: u16 = packet[2] as u16 * 0x100 + packet[3] as u16;
            let payload = vstd::slice::slice_subrange(packet, 4, packet.len());
            assert(payload@ =~= packet@.skip(4));
            Some(make_frame(&self.tap_mac, &mac, ethertype, payload))
        } else {
            let ethertype: u16 = if packet[0] / 16 == 4 {
                ETHERTYPE_IPV4
            } else {
                ETHERTYPE_IPV6
            };
            Some(make_frame(&self.tap_mac, &mac, ethertype, packet))
        }
    }
}

/// What a node has sent can be handed to the device.
pub open spec fn fits_device(packet: Seq<u8>, packet_information: bool) -> bool {
    if packet_information {
        packet.len() <= LONGEST_PAYLOAD + 4
    } else {
        0 < packet.len() <= LONGEST_PAYLOAD
    }
}

/// The MAC address of this host is that of one host, administered locally, and tells the node.
pub proof fn lemma_tap_mac(prefix: u16, node: NodeId)
    ensures
        tap_mac(prefix, node).len() == 6,
        tap_mac(prefix, node)[0] % 2 == 0,
        tap_mac(prefix, node)[0] / 2 % 2 == 1,
        node_mac(tap_mac(prefix, node), node) == tap_mac(prefix, node),
        from_be32(tap_mac(prefix, node).subrange(2, 6)) == node,
{
    let mac = tap_mac(prefix, node);
    super::frame::lemma_be32_read_back(node as int);
    assert(mac.subrange(2, 6) =~= be32(node as int));
    assert(node_mac(mac, node) =~= mac);
}

/// A frame for the MAC address of the host of a connected node, of an ordinary type, goes to that
/// node.
pub proof fn lemma_frames_reach_their_node(
    node: NodeId,
    prefix: u16,
    own: NodeId,
    ethertype: u16,
    payload: Seq<u8>,
    packet_information: bool,
    ips: Seq<IpEntry>,
    connected: Set<NodeId>,
)
    requires
        connected.contains(node),
        ethertype != ETHERTYPE_ARP,
        !is_ndp_frame(ethertype, payload, NsNa::Na),
    ensures
        ({
            let device_mac = tap_mac(prefix, own);
            decide_frame(
                ethernet_frame(node_mac(device_mac, node), device_mac, ethertype, payload),
                device_mac,
                packet_information,
                ips,
                connected,
            ) == (TapDecision::Send { node, packet: carried(packet_information, ethertype, payload) })
        }),
{
    let device_mac = tap_mac(prefix, own);
    let mac = node_mac(device_mac, node);
    let frame = ethernet_frame(mac, device_mac, ethertype, payload);
    lemma_tap_mac(prefix, own);
    super::frame::lemma_be32_read_back(node as int);
    assert(frame.subrange(6, 12) =~= device_mac);
    assert(frame.skip(14) =~= payload);
    assert(frame.subrange(2, 6) =~= be32(node as int));
    assert(frame[0] == device_mac[0] && frame[1] == device_mac[1]);
    assert(frame[12] == be16(ethertype)[0] && frame[13] == be16(ethertype)[1]);
    assert(from_be16(frame, 12) == ethertype);
}

/// What one node sends for a frame with type information, the other hands to its device under the
/// same type and with the same payload.
pub proof fn lemma_type_information_survives(
    ethertype: u16,
    payload: Seq<u8>,
    device_mac: Seq<u8>,
    peer: NodeId,
)
    ensures
        delivered(carried(true, ethertype, payload), true, device_mac, peer) == Some(
            ethernet_frame(device_mac, node_mac(device_mac, peer), ethertype, payload),
        ),
{
    let packet = carried(true, ethertype, payload);
    assert(packet.skip(4) =~= payload);
    assert(packet[2] == be16(ethertype)[0] && packet[3] == be16(ethertype)[1]);
    assert(from_be16(packet, 2) == ethertype);
}

} // verus!
