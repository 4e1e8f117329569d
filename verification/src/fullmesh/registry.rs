//! What the nodes of the mesh have announced about themselves.

use vstd::prelude::*;
use std::collections::HashMap;
use crate::addr::IpAddr;
use crate::packet::{elapsed, time_since, Duration, Instant, NodeId, SECOND};
use crate::tables::node_keys;

verus! {

broadcast use vstd::std_specs::hash::group_hash_axioms;

/// A way to connect to a node.
#[derive(Clone, Copy, PartialEq, Eq, Structural, Debug)]
pub enum ConnectionType {
    Ice,
    DataChannel,
}

/// What a node announces about itself.
#[derive(Clone, Debug)]
pub struct Node {
    pub connection_types: Vec<ConnectionType>,
    pub ips: Vec<IpAddr>,
}

/// What the registries tell each other.
#[derive(Clone, Debug)]
pub enum RegistryPayload {
    Node(Node),
}

/// A node and when it was last heard of.
pub struct NodeEntry {
    pub node: Node,
    pub last_seen: Instant,
}

/// Who announced an address, and when.
#[derive(Clone, Copy, Debug)]
pub struct IpEntry {
    pub ip: IpAddr,
    pub node_id: NodeId,
    pub last_seen: Instant,
}

/// The registry of one node.
pub struct Registry {
    pub connection_types: Vec<ConnectionType>,
    pub announce_interval: Duration,
    pub node_timeout: Duration,
    pub nodes: HashMap<NodeId, NodeEntry>,
    pub ips: Vec<IpEntry>,
}

/// What was last heard of at `last_seen` still counts.
pub open spec fn is_fresh(last_seen: Instant, now: Instant, timeout: Duration) -> bool {
    time_since(now, last_seen) < timeout
}

/// The index of the entry for the address with these octets among the first `n`.
pub open spec fn ip_index(ips: Seq<IpEntry>, octets: Seq<u8>, n: int) -> Option<int>
    decreases n,
{
    if n <= 0 {
        None
    } else {
        match ip_index(ips, octets, n - 1) {
            Some(i) => Some(i),
            None => if ips[n - 1].ip.octets() == octets {
                Some(n - 1)
            } else {
                None
            },
        }
    }
}

/// The node that announced the address with these octets.
pub open spec fn owner_of(ips: Seq<IpEntry>, octets: Seq<u8>) -> Option<NodeId> {
    match ip_index(ips, octets, ips.len() as int) {
        Some(i) => Some(ips[i].node_id),
        None => None,
    }
}

/// The entries once `entry` has been added: it takes the place of an earlier one for its address.
pub open spec fn with_ip(ips: Seq<IpEntry>, entry: IpEntry) -> Seq<IpEntry> {
    match ip_index(ips, entry.ip.octets(), ips.len() as int) {
        Some(i) => ips.update(i, entry),
        None => ips.push(entry),
    }
}

/// The entries once node `src` has announced the addresses `announced`, in this order.
pub open spec fn with_ips(
    ips: Seq<IpEntry>,
    announced: Seq<IpAddr>,
    src: NodeId,
    now: Instant,
) -> Seq<IpEntry>
    decreases announced.len(),
{
    if announced.len() == 0 {
        ips
    } else {
        with_ip(
            with_ips(ips, announced.drop_last(), src, now),
            IpEntry { ip: announced.last(), node_id: src, last_seen: now },
        )
    }
}

/// The entries that still count.
pub open spec fn fresh_ips(ips: Seq<IpEntry>, now: Instant, timeout: Duration) -> Seq<IpEntry>
    decreases ips.len(),
{
    if ips.len() == 0 {
        Seq::empty()
    } else {
        let before = fresh_ips(ips.drop_last(), now, timeout);
        if is_fresh(ips.last().last_seen, now, timeout) {
            before.push(ips.last())
        } else {
            before
        }
    }
}

/// No address has two entries.
pub open spec fn ips_distinct(ips: Seq<IpEntry>) -> bool {
    forall|i: int, j: int|
        0 <= i < j < ips.len() ==> (#[trigger] ips[i]).ip.octets() != (
        #[trigger] ips[j]).ip.octets()
}

/// The index of the entry for `ip`.
pub fn find_ip(ips: &Vec<IpEntry>, ip: &IpAddr) -> (result: Option<usize>)
    ensures
        match result {
            Some(i) => i < ips.len() && ips[i as int].ip.octets() == ip.octets() && ip_index(
                ips@,
                ip.octets(),
                ips.len() as int,
            ) == Some(i as int),
            None => ip_index(ips@, ip.octets(), ips.len() as int) is None,
        },
{
    let mut found: Option<usize> = None;
    let mut i: usize = 0;
    while i < ips.len()
        invariant
            i <= ips.len(),
            match found {
                Some(b) => b < i && ips[b as int].ip.octets() == ip.octets() && ip_index(
                    ips@,
                    ip.octets(),
                    i as int,
                ) == Some(b as int),
                None => ip_index(ips@, ip.octets(), i as int) is None,
            },
        decreases ips.len() - i,
    {
        if found.is_none() && ips[i].ip.same(ip) {
            found = Some(i);
        }
        i += 1;
    }
    found
}

/// The node that announced `ip`.
pub fn find_owner(ips: &Vec<IpEntry>, ip: &IpAddr) -> (result: Option<NodeId>)
    ensures
        result == owner_of(ips@, ip.octets()),
{
    match find_ip(ips, ip) {
        Some(i) => Some(ips[i].node_id),
        None => None,
    }
}

/// Where there is an entry for the address, [`ip_index`] gives one, and only then.
pub proof fn lemma_ip_index(ips: Seq<IpEntry>, octets: Seq<u8>, n: int)
    requires
        n <= ips.len(),
    ensures
        match ip_index(ips, octets, n) {
            Some(i) => 0 <= i < n && ips[i].ip.octets() == octets,
            None => forall|i: int| 0 <= i < n ==> (#[trigger] ips[i]).ip.octets() != octets,
        },
    decreases n,
{
    if n > 0 {
        lemma_ip_index(ips, octets, n - 1);
    }
}

/// Adding entries keeps the addresses distinct.
pub proof fn lemma_with_ips_distinct(
    ips: Seq<IpEntry>,
    announced: Seq<IpAddr>,
    src: NodeId,
    now: Instant,
)
    requires
        ips_distinct(ips),
    ensures
        ips_distinct(with_ips(ips, announced, src, now)),
    decreases announced.len(),
{
    if announced.len() > 0 {
        lemma_with_ips_distinct(ips, announced.drop_last(), src, now);
        let before = with_ips(ips, announced.drop_last(), src, now);
        lemma_ip_index(before, announced.last().octets(), before.len() as int);
    }
}

/// The nodes with what one of them has announced.
pub open spec fn with_node(
    nodes: Map<NodeId, NodeEntry>,
    src: NodeId,
    node: Node,
    now: Instant,
) -> Map<NodeId, NodeEntry> {
    nodes.insert(src, NodeEntry { node, last_seen: now })
}

/// The nodes that still count.
pub open spec fn fresh_nodes(nodes: Map<NodeId, NodeEntry>, now: Instant, timeout: Duration) -> Map<
    NodeId,
    NodeEntry,
> {
    Map::new(
        |k: NodeId| nodes.contains_key(k) && is_fresh(nodes[k].last_seen, now, timeout),
        |k: NodeId| nodes[k],
    )
}

/// Each entry that still counts was there before, in the same order.
proof fn lemma_fresh_ips_origin(ips: Seq<IpEntry>, now: Instant, timeout: Duration)
    ensures
        fresh_ips(ips, now, timeout).len() <= ips.len(),
        forall|i: int|
            0 <= i < fresh_ips(ips, now, timeout).len() ==> exists|j: int|
                i <= j < ips.len() && (#[trigger] ips[j]) == #[trigger] fresh_ips(
                    ips,
                    now,
                    timeout,
                )[i],
        ips_distinct(ips) ==> ips_distinct(fresh_ips(ips, now, timeout)),
    decreases ips.len(),
{
    if ips.len() > 0 {
        let rest = ips.drop_last();
        let last = ips.len() - 1;
        lemma_fresh_ips_origin(rest, now, timeout);
        let before = fresh_ips(rest, now, timeout);
        let all = fresh_ips(ips, now, timeout);
        assert forall|i: int| 0 <= i < all.len() implies exists|j: int|
            i <= j < ips.len() && (#[trigger] ips[j]) == #[trigger] all[i] by {
            if i < before.len() {
                let j = choose|j: int| i <= j < rest.len() && (#[trigger] rest[j]) == before[i];
                assert(ips[j] == rest[j] && all[i] == before[i]);
            } else {
                assert(all[i] == ips[last]);
            }
        }
        if ips_distinct(ips) {
            assert forall|i: int, j: int| 0 <= i < j < rest.len() implies (
            #[trigger] rest[i]).ip.octets() != (#[trigger] rest[j]).ip.octets() by {
                assert(rest[i] == ips[i] && rest[j] == ips[j]);
            }
            assert forall|i: int, j: int| 0 <= i < j < all.len() implies (
            #[trigger] all[i]).ip.octets() != (#[trigger] all[j]).ip.octets() by {
                if j < before.len() {
                    assert(all[i] == before[i] && all[j] == before[j]);
                } else {
                    let k = choose|k: int|
                        i <= k < rest.len() && (#[trigger] rest[k]) == before[i];
                    assert(ips[k] == rest[k]);
                    assert(all[j] == ips[last]);
                }
            }
        }
    }
}

/// After a collection nothing is left that has not been heard of in time.
pub proof fn lemma_fresh_ips_are_fresh(ips: Seq<IpEntry>, now: Instant, timeout: Duration)
    ensures
        forall|i: int|
            0 <= i < fresh_ips(ips, now, timeout).len() ==> is_fresh(
                (#[trigger] fresh_ips(ips, now, timeout)[i]).last_seen,
                now,
                timeout,
            ),
    decreases ips.len(),
{
    if ips.len() > 0 {
        lemma_fresh_ips_are_fresh(ips.drop_last(), now, timeout);
    }
}

impl Registry {
    /// The registry of a node that offers `connection_types`.
    pub fn new(connection_types: Vec<ConnectionType>) -> (registry: Registry)
        ensures
            registry.wf(),
            registry.connection_types == connection_types,
            registry.announce_interval == 30 * SECOND,
            registry.node_timeout == 120 * SECOND,
            registry.nodes@ == Map::<NodeId, NodeEntry>::empty(),
            registry.ips@ == Seq::<IpEntry>::empty(),
    {
        Registry::new_with_parameters(connection_types, 30 * SECOND, 120 * SECOND)
    }

    /// The registry with the given timers.
    pub fn new_with_parameters(
        connection_types: Vec<ConnectionType>,
        announce_interval: Duration,
        node_timeout: Duration,
    ) -> (registry: Registry)
        ensures
            registry.wf(),
            registry.connection_types == connection_types,
            registry.announce_interval == announce_interval,
            registry.node_timeout == node_timeout,
            registry.nodes@ == Map::<NodeId, NodeEntry>::empty(),
            registry.ips@ == Seq::<IpEntry>::empty(),
    {
        Registry {
            connection_types,
            announce_interval,
            node_timeout,
            nodes: HashMap::new(),
            ips: Vec::new(),
        }
    }

    /// No address has two entries.
    pub open spec fn wf(&self) -> bool {
        ips_distinct(self.ips@)
    }

    /// Takes a packet from `src` and tells whether to go on; without one, the registry ends. The
    /// addresses that a node announces are its own from now on.
    pub fn handle_packet(&mut self, packet: Option<(NodeId, RegistryPayload)>, now: Instant) -> (
        go_on: bool)
        requires
            old(self).wf(),
        ensures
            final(self).wf(),
            go_on <==> packet is Some,
            match packet {
                None => *final(self) == *old(self),
                Some((src, RegistryPayload::Node(node))) => {
                    &&& final(self).nodes@ == with_node(old(self).nodes@, src, node, now)
                    &&& final(self).nodes@ == old(self).nodes@.insert(
                        src,
                        NodeEntry { node, last_seen: now },
                    )
                    &&& final(self).ips@ == with_ips(old(self).ips@, node.ips@, src, now)
                },
            },
            final(self).connection_types == old(self).connection_types,
            final(self).announce_interval == old(self).announce_interval,
            final(self).node_timeout == old(self).node_timeout,
    {
        let (src, payload) = match packet {
            Some(packet) => packet,
            None => {
                return false;
            },
        };
        let RegistryPayload::Node(node) = payload;
        let ghost before = self.ips@;
        let mut i: usize = 0;
        while i < node.ips.len()
            invariant
                i <= node.ips.len(),
                self.ips@ == with_ips(before, node.ips@.take(i as int), src, now),
                self.nodes@ == old(self).nodes@,
                self.connection_types == old(self).connection_types,
                self.announce_interval == old(self).announce_interval,
                self.node_timeout == old(self).node_timeout,
            decreases node.ips.len() - i,
        {
            proof {
                assert(node.ips@.take(i + 1).drop_last() =~= node.ips@.take(i as int));
                assert(node.ips@.take(i + 1).last() == node.ips@[i as int]);
            }
            let ip = node.ips[i];
            let entry = IpEntry { ip, node_id: src, last_seen: now };
            match find_ip(&self.ips, &ip) {
                Some(j) => {
                    self.ips.set(j, entry);
                },
                None => {
                    self.ips.push(entry);
                },
            }
            i += 1;
        }
        proof {
            assert(node.ips@.take(node.ips.len() as int) =~= node.ips@);
            lemma_with_ips_distinct(before, node.ips@, src, now);
        }
        self.nodes.insert(src, NodeEntry { node, last_seen: now });
        true
    }

    /// Forgets the nodes and addresses that have not been heard of in time.
    pub fn gc(&mut self, now: Instant)
        requires
            old(self).wf(),
        ensures
            final(self).wf(),
            final(self).nodes@ == fresh_nodes(old(self).nodes@, now, old(self).node_timeout),
            final(self).nodes@ == Map::new(
                |k: NodeId|
                    old(self).nodes@.contains_key(k) && is_fresh(
                        old(self).nodes@[k].last_seen,
                        now,
                        old(self).node_timeout,
                    ),
                |k: NodeId| old(self).nodes@[k],
            ),
            final(self).ips@ == fresh_ips(old(self).ips@, now, old(self).node_timeout),
            final(self).connection_types == old(self).connection_types,
            final(self).announce_interval == old(self).announce_interval,
            final(self).node_timeout == old(self).node_timeout,
    {
        let keys = node_keys(&self.nodes);
        let ghost before = self.nodes@;
        let ghost timeout = self.node_timeout;
        let mut i: usize = 0;
        while i < keys.len()
            invariant
                i <= keys.len(),
                keys@.no_duplicates(),
                keys@.to_set() == before.dom(),
                self.node_timeout == timeout,
                self.ips@ == old(self).ips@,
                self.connection_types == old(self).connection_types,
                self.announce_interval == old(self).announce_interval,
                self.node_timeout == old(self).node_timeout,
                forall|k: NodeId| #[trigger]
                    self.nodes@.contains_key(k) <==> before.contains_key(k) && (is_fresh(
                        before[k].last_seen,
                        now,
                        timeout,
                    ) || !keys@.take(i as int).contains(k)),
                forall|k: NodeId| #[trigger]
                    self.nodes@.contains_key(k) ==> self.nodes@[k] == before[k],
            decreases keys.len() - i,
        {
            let key = keys[i];
            let ghost done = keys@.take(i as int);
            let ghost next = keys@.take(i + 1);
            proof {
                assert(next =~= done.push(key));
                assert(!done.contains(key));
                assert forall|k: NodeId| next.contains(k) <==> done.contains(k) || k == key by {
                    if done.contains(k) {
                        let j = choose|j: int| 0 <= j < done.len() && done[j] == k;
                        assert(next[j] == k);
                    }
                    assert(next[i as int] == key);
                }
            }
            let gone = match self.nodes.get(&key) {
                Some(entry) => elapsed(now, entry.last_seen) >= self.node_timeout,
                None => false,
            };
            if gone {
                self.nodes.remove(&key);
            }
            i += 1;
        }
        proof {
            assert(keys@.take(keys.len() as int) =~= keys@);
            assert forall|k: NodeId| before.contains_key(k) implies keys@.contains(k) by {
                assert(keys@.to_set().contains(k));
            }
            assert(self.nodes@ =~= Map::new(
                |k: NodeId|
                    before.contains_key(k) && is_fresh(before[k].last_seen, now, timeout),
                |k: NodeId| before[k],
            ));
            lemma_fresh_ips_origin(self.ips@, now, timeout);
        }
        let mut kept: Vec<IpEntry> = Vec::new();
        let mut j: usize = 0;
        while j < self.ips.len()
            invariant
                j <= self.ips.len(),
                self.node_timeout == timeout,
                kept@ == fresh_ips(self.ips@.take(j as int), now, timeout),
            decreases self.ips.len() - j,
        {
            proof {
                assert(self.ips@.take(j + 1).drop_last() =~= self.ips@.take(j as int));
                assert(self.ips@.take(j + 1).last() == self.ips@[j as int]);
            }
            let entry = self.ips[j];
            if elapsed(now, entry.last_seen) < self.node_timeout {
                kept.push(entry);
            }
            j += 1;
        }
        proof {
            assert(self.ips@.take(self.ips.len() as int) =~= self.ips@);
        }
        self.ips = kept;
    }

    /// What this node announces about itself, where `ips` are its addresses.
    pub fn announcement(&self, ips: Vec<IpAddr>) -> (node: Node)
        ensures
            node.connection_types@ == self.connection_types@,
            node.ips == ips,
    {
        let mut connection_types: Vec<ConnectionType> = Vec::new();
        let mut i: usize = 0;
        while i < self.connection_types.len()
            invariant
                i <= self.connection_types.len(),
                connection_types@ == self.connection_types@.take(i as int),
            decreases self.connection_types.len() - i,
        {
            assert(self.connection_types@.take(i + 1) =~= self.connection_types@.take(
                i as int,
            ).push(self.connection_types@[i as int]));
            connection_types.push(self.connection_types[i]);
            i += 1;
        }
        assert(self.connection_types@.take(self.connection_types.len() as int)
            =~= self.connection_types@);
        Node { connection_types, ips }
    }

    /// The node that announced an address.
    pub fn owner(&self, ip: &IpAddr) -> (result: Option<NodeId>)
        ensures
            result == owner_of(self.ips@, ip.octets()),
    {
        find_owner(&self.ips, ip)
    }

    /// The known nodes, each once, in no particular order, and whether they can be connected to
    /// with ICE.
    pub fn get_nodes(&self) -> (peers: Vec<Peer>)
        ensures
            peers@.map_values(|p: Peer| p.id).no_duplicates(),
            peers@.map_values(|p: Peer| p.id).to_set() == self.nodes@.dom(),
            forall|i: int|
                0 <= i < peers.len() ==> (#[trigger] peers[i]).ice
                    == self.nodes@[peers[i].id].node.connection_types@.contains(
                    ConnectionType::Ice,
                ),
    {
        let keys = node_keys(&self.nodes);
        let mut peers: Vec<Peer> = Vec::new();
        let mut i: usize = 0;
        proof {
            assert forall|j: int| 0 <= j < keys.len() implies self.nodes@.contains_key(
                #[trigger] keys@[j],
            ) by {
                assert(keys@.to_set().contains(keys@[j]));
            }
        }
        while i < keys.len()
            invariant
                i <= keys.len(),
                peers.len() == i,
                forall|j: int|
                    0 <= j < keys.len() ==> self.nodes@.contains_key(#[trigger] keys@[j]),
                forall|j: int| 0 <= j < i ==> (#[trigger] peers[j]).id == keys[j],
                forall|j: int|
                    0 <= j < i ==> (#[trigger] peers[j]).ice
                        == self.nodes@[peers[j].id].node.connection_types@.contains(
                        ConnectionType::Ice,
                    ),
            decreases keys.len() - i,
        {
            let id = keys[i];
            assert(self.nodes@.contains_key(keys@[i as int]));
            let ice = match self.nodes.get(&id) {
                Some(entry) => offers_ice(&entry.node.connection_types),
                None => false,
            };
            peers.push(Peer { id, ice });
            i += 1;
        }
        assert(peers@.map_values(|p: Peer| p.id) =~= keys@);
        peers
    }
}

/// A known node, and whether it can be connected to with ICE.
#[derive(Clone, Copy, PartialEq, Eq, Structural, Debug)]
pub struct Peer {
    pub id: NodeId,
    pub ice: bool,
}

/// Whether ICE is among the ways to connect.
pub fn offers_ice(types: &Vec<ConnectionType>) -> (result: bool)
    ensures
        result == types@.contains(ConnectionType::Ice),
{
    let mut i: usize = 0;
    while i < types.len()
        invariant
            i <= types.len(),
            forall|j: int| 0 <= j < i ==> types[j] != ConnectionType::Ice,
        decreases types.len() - i,
    {
        if types[i] == ConnectionType::Ice {
            return true;
        }
        i += 1;
    }
    false
}

/// What was heard of counts for less than the timeout, and no longer when that has passed.
pub proof fn lemma_freshness(last_seen: Instant, now: Instant, timeout: Duration)
    requires
        last_seen <= now,
    ensures
        is_fresh(last_seen, now, timeout) <==> now - last_seen < timeout,
{
}

/// An index that [`ip_index`] gives is the first one for the address.
proof fn lemma_ip_first(ips: Seq<IpEntry>, octets: Seq<u8>, n: int)
    requires
        0 <= n <= ips.len(),
    ensures
        match ip_index(ips, octets, n) {
            Some(i) => 0 <= i < n && ips[i].ip.octets() == octets && forall|j: int|
                0 <= j < i ==> (#[trigger] ips[j]).ip.octets() != octets,
            None => forall|j: int| 0 <= j < n ==> (#[trigger] ips[j]).ip.octets() != octets,
        },
    decreases n,
{
    if n > 0 {
        lemma_ip_first(ips, octets, n - 1);
    }
}

/// The entry for an address.
pub open spec fn entry_of(ips: Seq<IpEntry>, octets: Seq<u8>) -> Option<IpEntry> {
    match ip_index(ips, octets, ips.len() as int) {
        Some(i) => Some(ips[i]),
        None => None,
    }
}

proof fn lemma_ip_put(ips: Seq<IpEntry>, entry: IpEntry, octets: Seq<u8>)
    ensures
        entry_of(with_ip(ips, entry), octets) == if entry.ip.octets() == octets {
            Some(entry)
        } else {
            entry_of(ips, octets)
        },
{
    let n = ips.len() as int;
    let after = with_ip(ips, entry);
    lemma_ip_first(ips, entry.ip.octets(), n);
    lemma_ip_first(ips, octets, n);
    lemma_ip_first(after, octets, after.len() as int);
    match ip_index(ips, entry.ip.octets(), n) {
        Some(i) => {
            assert(after[i] == entry);
            assert forall|j: int| 0 <= j < n implies (#[trigger] after[j]).ip.octets()
                == ips[j].ip.octets() by {}
            if let Some(k) = ip_index(after, octets, after.len() as int) {
                assert(after[k].ip.octets() == ips[k].ip.octets());
                if let Some(m) = ip_index(ips, octets, n) {
                    assert(after[m].ip.octets() == ips[m].ip.octets());
                    assert(k == m);
                }
            } else if let Some(m) = ip_index(ips, octets, n) {
                assert(after[m].ip.octets() == ips[m].ip.octets());
            }
        },
        None => {
            assert(after[n] == entry);
            assert forall|j: int| 0 <= j < n implies #[trigger] after[j] == ips[j] by {}
            if let Some(k) = ip_index(after, octets, after.len() as int) {
                if k < n {
                    assert(after[k] == ips[k]);
                }
                if let Some(m) = ip_index(ips, octets, n) {
                    assert(after[m] == ips[m]);
                }
            } else if let Some(m) = ip_index(ips, octets, n) {
                assert(after[m] == ips[m]);
            }
        },
    }
}

/// The addresses that a node announces are its own from then on, whoever announced them before; all
/// other addresses stay with who announced them last.
pub proof fn lemma_announced_addresses_change_hands(
    ips: Seq<IpEntry>,
    announced: Seq<IpAddr>,
    src: NodeId,
    now: Instant,
    octets: Seq<u8>,
)
    ensures
        ({
            let after = with_ips(ips, announced, src, now);
            let told = exists|k: int|
                0 <= k < announced.len() && (#[trigger] announced[k]).octets() == octets;
            &&& told ==> owner_of(after, octets) == Some(src) && (entry_of(after, octets) matches Some(e)
                && e.last_seen == now && e.node_id == src && e.ip.octets() == octets)
            &&& !told ==> owner_of(after, octets) == owner_of(ips, octets) && entry_of(after, octets)
                == entry_of(ips, octets)
        }),
    decreases announced.len(),
{
    if announced.len() > 0 {
        let rest = announced.drop_last();
        let last = announced.len() - 1;
        let entry = IpEntry { ip: announced.last(), node_id: src, last_seen: now };
        lemma_announced_addresses_change_hands(ips, rest, src, now, octets);
        lemma_ip_put(with_ips(ips, rest, src, now), entry, octets);
        if exists|k: int| 0 <= k < rest.len() && (#[trigger] rest[k]).octets() == octets {
            let k = choose|k: int| 0 <= k < rest.len() && (#[trigger] rest[k]).octets() == octets;
            assert(announced[k].octets() == octets);
        }
        if exists|k: int| 0 <= k < announced.len() && (#[trigger] announced[k]).octets() == octets {
            let k = choose|k: int|
                0 <= k < announced.len() && (#[trigger] announced[k]).octets() == octets;
            if k < last {
                assert(rest[k].octets() == octets);
            }
        }
        assert(announced[last] == announced.last());
        lemma_ip_first(
            with_ips(ips, announced, src, now),
            octets,
            with_ips(ips, announced, src, now).len() as int,
        );
    }
}

/// An address that nobody announced belongs to nobody, and otherwise it belongs to who announced it.
pub proof fn lemma_owner(ips: Seq<IpEntry>, octets: Seq<u8>)
    ensures
        match owner_of(ips, octets) {
            Some(node) => exists|i: int|
                0 <= i < ips.len() && (#[trigger] ips[i]).ip.octets() == octets && ips[i].node_id
                    == node,
            None => forall|i: int| 0 <= i < ips.len() ==> (#[trigger] ips[i]).ip.octets() != octets,
        },
{
    lemma_ip_first(ips, octets, ips.len() as int);
}

/// A collection keeps exactly the entries that still count.
pub proof fn lemma_fresh_entries_kept(ips: Seq<IpEntry>, now: Instant, timeout: Duration)
    ensures
        forall|e: IpEntry| #[trigger]
            fresh_ips(ips, now, timeout).contains(e) <==> ips.contains(e) && (now < e.last_seen
                || now - e.last_seen < timeout) && timeout > 0,
    decreases ips.len(),
{
    let p = |e: IpEntry| (now < e.last_seen || now - e.last_seen < timeout) && timeout > 0;
    if ips.len() > 0 {
        let rest = ips.drop_last();
        lemma_fresh_entries_kept(rest, now, timeout);
        crate::tables::lemma_picked(
            ips,
            fresh_ips(rest, now, timeout),
            fresh_ips(ips, now, timeout),
            p,
        );
    }
}

/// What a node has announced last is known of it from then on, until its time has passed; then it is
/// forgotten. The other nodes are known as before, for as long as their own time has not passed.
pub proof fn lemma_last_announcement_known(
    nodes: Map<NodeId, NodeEntry>,
    src: NodeId,
    earlier: Node,
    node: Node,
    before: Instant,
    heard: Instant,
    now: Instant,
    timeout: Duration,
)
    requires
        heard <= now,
    ensures
        ({
            let known = with_node(with_node(nodes, src, earlier, before), src, node, heard);
            let after = fresh_nodes(known, now, timeout);
            &&& known.contains_key(src) && known[src].node == node && known[src].last_seen == heard
            &&& after.contains_key(src) <==> now - heard < timeout
            &&& after.contains_key(src) ==> after[src] == known[src]
            &&& forall|n: NodeId|
                n != src ==> (#[trigger] known.contains_key(n) <==> nodes.contains_key(n)) && (
                nodes.contains_key(n) ==> known[n] == nodes[n])
            &&& forall|n: NodeId|
                n != src ==> (#[trigger] after.contains_key(n) <==> nodes.contains_key(n)
                    && is_fresh(nodes[n].last_seen, now, timeout)) && (after.contains_key(n)
                    ==> after[n] == nodes[n])
        }),
{
}

} // verus!
