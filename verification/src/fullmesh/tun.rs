//! The point-to-point devices: one for each connected node.

use vstd::prelude::*;
use vstd::string::*;
use std::collections::HashSet;
use crate::packet::{Duration, NodeId, SECOND};
use crate::text::{hexadecimal, push_hexadecimal};

verus! {

broadcast use vstd::std_specs::hash::group_hash_axioms;

/// The largest packet that a device takes.
pub const DEVICE_MTU: u16 = 1280;

/// What is sent to keep a connection open: shorter than any packet of a device.
pub open spec fn is_keepalive(packet: Seq<u8>) -> bool {
    packet.len() == 1
}

/// The packet that keeps a connection open.
pub fn keepalive() -> (packet: Vec<u8>)
    ensures
        packet@ == seq![0u8],
        is_keepalive(packet@),
{
    let mut packet: Vec<u8> = Vec::new();
    packet.push(0);
    packet
}

/// Whether a packet from a node is for the device.
pub fn is_for_device(packet: &[u8]) -> (result: bool)
    ensures
        result == !is_keepalive(packet@),
{
    packet.len() != 1
}

/// What came of waiting for a packet from a node.
pub enum Received {
    Packet(Vec<u8>),
    /// The connection is gone.
    Closed,
    /// Something else went wrong.
    Failed,
}

/// What follows from it.
pub enum RecvStep {
    /// Wait no longer.
    Stop,
    /// Wait for the next packet.
    Wait,
    /// Hand this to the device, and wait for the next packet.
    Deliver(Vec<u8>),
}

/// What follows from what a node has sent. What only keeps the connection open is not for the device.
pub fn recv_loop(received: Received) -> (step: RecvStep)
    ensures
        step == match received {
            Received::Packet(packet) => if is_keepalive(packet@) {
                RecvStep::Wait
            } else {
                RecvStep::Deliver(packet)
            },
            Received::Closed => RecvStep::Stop,
            Received::Failed => RecvStep::Wait,
        },
{
    match received {
        Received::Packet(packet) => if is_for_device(packet.as_slice()) {
            RecvStep::Deliver(packet)
        } else {
            RecvStep::Wait
        },
        Received::Closed => RecvStep::Stop,
        Received::Failed => RecvStep::Wait,
    }
}

/// What the sending side of a device waits for.
pub enum SendEvent {
    /// It is time to keep the connection open.
    Tick,
    /// The device has a packet.
    Read(Vec<u8>),
    /// The device could not be read.
    Failed,
}

/// What is sent to the node for an event, if anything.
pub fn send_loop(event: SendEvent) -> (packet: Option<Vec<u8>>)
    ensures
        match event {
            SendEvent::Tick => packet matches Some(p) && p@ == seq![0u8],
            SendEvent::Read(data) => packet == Some(data),
            SendEvent::Failed => packet is None,
        },
{
    match event {
        SendEvent::Tick => Some(keepalive()),
        SendEvent::Read(data) => Some(data),
        SendEvent::Failed => None,
    }
}

/// What a task that carries packets between a device and the connections to a node waits for.
pub enum PathEvent {
    /// The connections have changed.
    Refresh,
    /// The connections are gone for good.
    Gone,
    /// There is a packet to carry.
    Packet(Vec<u8>),
    /// There was none to be had.
    Failed,
}

/// What the task does.
pub enum PathStep {
    /// Looks for connections anew.
    Reload,
    /// Ends.
    Stop,
    /// Carries this.
    Carry(Vec<u8>),
}

/// What a task does with an event.
pub fn path_step(event: PathEvent) -> (step: PathStep)
    ensures
        step == match event {
            PathEvent::Refresh => PathStep::Reload,
            PathEvent::Gone => PathStep::Stop,
            PathEvent::Packet(packet) => PathStep::Carry(packet),
            PathEvent::Failed => PathStep::Reload,
        },
{
    match event {
        PathEvent::Refresh => PathStep::Reload,
        PathEvent::Gone => PathStep::Stop,
        PathEvent::Packet(packet) => PathStep::Carry(packet),
        PathEvent::Failed => PathStep::Reload,
    }
}

/// What is needed to make the devices, and the nodes that have one in use.
pub struct TunManager {
    pub interface_prefix: String,
    pub enable_packet_information: bool,
    pub keepalive_interval: Duration,
    /// The nodes whose device is in use.
    pub tasks: HashSet<NodeId>,
}

impl TunManager {
    /// The devices, with the usual time between keepalives.
    pub fn new(interface_prefix: String, enable_packet_information: bool) -> (tun: TunManager)
        ensures
            tun.interface_prefix == interface_prefix,
            tun.enable_packet_information == enable_packet_information,
            tun.keepalive_interval == 10 * SECOND,
            tun.tasks@ == Set::<NodeId>::empty(),
    {
        TunManager::new_with_parameters(interface_prefix, enable_packet_information, 10 * SECOND)
    }

    /// The devices. None is in use yet.
    pub fn new_with_parameters(
        interface_prefix: String,
        enable_packet_information: bool,
        keepalive_interval: Duration,
    ) -> (tun: TunManager)
        ensures
            tun.interface_prefix == interface_prefix,
            tun.enable_packet_information == enable_packet_information,
            tun.keepalive_interval == keepalive_interval,
            tun.tasks@ == Set::<NodeId>::empty(),
    {
        TunManager {
            interface_prefix,
            enable_packet_information,
            keepalive_interval,
            tasks: HashSet::new(),
        }
    }

    /// The name of the device for a node.
    pub fn device_name(&self, node: NodeId) -> (name: String)
        ensures
            name@ == self.interface_prefix@ + hexadecimal(node as int),
    {
        let mut name = self.interface_prefix.clone();
        push_hexadecimal(&mut name, node as u64);
        name
    }

    /// A node has been connected. Tells whether its device is in use with an earlier connection,
    /// which is to be ended. Where the device can be had, report with [`TunManager::started`].
    pub fn connected(&mut self, node: NodeId) -> (end_earlier: bool)
        ensures
            end_earlier == old(self).tasks@.contains(node),
            final(self).tasks@ == old(self).tasks@.remove(node),
            final(self).interface_prefix == old(self).interface_prefix,
            final(self).enable_packet_information == old(self).enable_packet_information,
            final(self).keepalive_interval == old(self).keepalive_interval,
    {
        let end_earlier = self.tasks.contains(&node);
        self.tasks.remove(&node);
        end_earlier
    }

    /// The device for a node that has been connected is in use now.
    pub fn started(&mut self, node: NodeId)
        ensures
            final(self).tasks@ == old(self).tasks@.insert(node),
            final(self).interface_prefix == old(self).interface_prefix,
            final(self).enable_packet_information == old(self).enable_packet_information,
            final(self).keepalive_interval == old(self).keepalive_interval,
    {
        self.tasks.insert(node);
    }

    /// A node has been disconnected. Tells whether its device is in use.
    pub fn disconnected(&mut self, node: NodeId) -> (end: bool)
        ensures
            end == old(self).tasks@.contains(node),
            final(self).tasks@ == old(self).tasks@.remove(node),
            final(self).interface_prefix == old(self).interface_prefix,
            final(self).enable_packet_information == old(self).enable_packet_information,
            final(self).keepalive_interval == old(self).keepalive_interval,
    {
        let end = self.tasks.contains(&node);
        self.tasks.remove(&node);
        end
    }
}

/// Those of the nodes for which nothing is running yet, in order.
pub open spec fn idle(nodes: Seq<NodeId>, running: Set<NodeId>) -> Seq<NodeId>
    decreases nodes.len(),
{
    if nodes.len() == 0 {
        Seq::empty()
    } else {
        let before = idle(nodes.drop_last(), running);
        if running.contains(nodes.last()) {
            before
        } else {
            before.push(nodes.last())
        }
    }
}

/// The nodes for which a task is to be started: those to or from which packets can go and for which
/// none is running.
pub fn handle_refresh(nodes: &Vec<NodeId>, running: &HashSet<NodeId>) -> (start: Vec<NodeId>)
    ensures
        start@ == idle(nodes@, running@),
{
    let mut start: Vec<NodeId> = Vec::new();
    let mut i: usize = 0;
    while i < nodes.len()
        invariant
            i <= nodes.len(),
            start@ == idle(nodes@.take(i as int), running@),
        decreases nodes.len() - i,
    {
        proof {
            assert(nodes@.take(i + 1).drop_last() =~= nodes@.take(i as int));
            assert(nodes@.take(i + 1).last() == nodes@[i as int]);
        }
        let node = nodes[i];
        if !running.contains(&node) {
            start.push(node);
        }
        i += 1;
    }
    assert(nodes@.take(nodes.len() as int) =~= nodes@);
    start
}

/// A task is started for a node if and only if it is among those that need one and none is running; the
/// nodes keep their order, and where none is running all are started.
pub proof fn lemma_tasks_started(nodes: Seq<NodeId>, running: Set<NodeId>)
    ensures
        forall|n: NodeId| #[trigger]
            idle(nodes, running).contains(n) <==> nodes.contains(n) && !running.contains(n),
        idle(nodes, Set::empty()) == nodes,
        idle(nodes, running).len() <= nodes.len(),
        nodes.no_duplicates() ==> idle(nodes, running).no_duplicates(),
    decreases nodes.len(),
{
    if nodes.len() > 0 {
        let rest = nodes.drop_last();
        let last = nodes.last();
        let before = idle(rest, running);
        let all = idle(nodes, running);
        lemma_tasks_started(rest, running);
        assert(nodes =~= rest.push(last));
        assert(idle(nodes, Set::empty()) =~= nodes);
        assert forall|n: NodeId| nodes.contains(n) <==> rest.contains(n) || n == last by {
            if rest.contains(n) {
                let i = choose|i: int| 0 <= i < rest.len() && rest[i] == n;
                assert(nodes[i] == n);
            }
            assert(nodes[nodes.len() - 1] == last);
        }
        assert forall|n: NodeId| #[trigger] all.contains(n) <==> nodes.contains(n)
            && !running.contains(n) by {
            if before.contains(n) {
                let i = choose|i: int| 0 <= i < before.len() && before[i] == n;
                assert(all[i] == n);
            }
            if !running.contains(last) {
                assert(all[before.len() as int] == last);
            }
            if all.contains(n) {
                let i = choose|i: int| 0 <= i < all.len() && all[i] == n;
                if i < before.len() {
                    assert(before[i] == n);
                    assert(before.contains(n));
                }
            }
        }
        if nodes.no_duplicates() {
            assert(rest.no_duplicates());
            assert(!rest.contains(last)) by {
                if rest.contains(last) {
                    let i = choose|i: int| 0 <= i < rest.len() && rest[i] == last;
                    assert(nodes[i] == nodes[nodes.len() - 1]);
                }
            }
            assert(!before.contains(last));
            assert forall|i: int, j: int| 0 <= i < j < all.len() implies all[i] != all[j] by {
                if j < before.len() {
                    assert(before[i] != before[j]);
                } else {
                    assert(before.contains(before[i]));
                }
            }
        }
    } else {
        assert(idle(nodes, Set::empty()) =~= nodes);
    }
}

/// What keeps a connection open is a single byte, and nothing else is taken for it.
pub proof fn lemma_keepalives(packet: Seq<u8>)
    ensures
        is_keepalive(packet) <==> packet.len() == 1,
{
}

} // verus!
