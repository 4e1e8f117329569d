//! A network of named peers that find each other through the peers that they are connected to.
//!
//! A peer is heard of first; then a hand shake with it is tried, whose descriptions travel over
//! peers that are connected already; and at last it is connected itself.

use vstd::prelude::*;
use vstd::string::*;
use crate::connection::{is_listed, listed, unlist, unlisted};
use crate::packet::{elapsed, time_since, Duration, Instant};

verus! {

/// What is running for a peer. Whatever runs is known by a number.
#[derive(Clone, Copy, PartialEq, Eq, Structural, Debug)]
pub enum NetPeerRef {
    /// The peer is connected.
    Actor(u64),
    /// The peer has been heard of, and nothing is running for it.
    Added,
    /// A hand shake with the peer is under way.
    Pending(u64),
}

/// A peer.
pub struct NetPeer {
    pub remote_id: String,
    /// When it was last heard of, or when the last step was taken.
    pub last_shake: Instant,
    pub actor: NetPeerRef,
}

/// A description of one end of a connection, on its way to the other end.
pub struct DescPacket {
    pub from_id: String,
    pub target_id: String,
    pub desc: String,
}

/// What two connected peers tell each other.
pub enum Signal {
    /// The sender is alive, and knows these peers.
    Alive(Vec<String>),
    Desc(DescPacket),
}

/// Why something is ended.
#[derive(Clone, Copy, PartialEq, Eq, Structural, Debug)]
pub enum StopReason {
    Established,
    Replaced,
    Disconnected,
    ShakeTimeout,
    AliveTimeout,
}

/// Where a description goes.
pub enum DescAction {
    /// Nowhere.
    Ignore,
    /// To the hand shake with the peer that sent it.
    PutDesc { shake: u64, desc: String },
    /// To the peer that it is for.
    Forward { peer: u64, packet: DescPacket },
}

/// Something to be ended.
#[derive(Clone, Copy, PartialEq, Eq, Structural, Debug)]
pub struct Stop {
    pub actor: u64,
    pub reason: StopReason,
}

/// A description to be sent to a peer: the index of the description, and the peer.
#[derive(Clone, Copy, PartialEq, Eq, Structural, Debug)]
pub struct Relay {
    pub desc: usize,
    pub peer: u64,
}

/// The index of the peer with this name among the first `n`.
pub open spec fn peer_index(peers: Seq<NetPeer>, name: Seq<char>, n: int) -> Option<int>
    decreases n,
{
    if n <= 0 {
        None
    } else {
        match peer_index(peers, name, n - 1) {
            Some(i) => Some(i),
            None => if peers[n - 1].remote_id@ == name {
                Some(n - 1)
            } else {
                None
            },
        }
    }
}

/// The index of the peer with this name.
pub open spec fn index_of(peers: Seq<NetPeer>, name: Seq<char>) -> Option<int> {
    peer_index(peers, name, peers.len() as int)
}

/// No two peers have the same name.
pub open spec fn names_distinct(peers: Seq<NetPeer>) -> bool {
    forall|i: int, j: int|
        0 <= i < j < peers.len() ==> (#[trigger] peers[i]).remote_id@ != (
        #[trigger] peers[j]).remote_id@
}

/// The peers without one that has just been connected, and what was running for it.
pub open spec fn on_connected(peers: Seq<NetPeer>, name: Seq<char>) -> (Seq<NetPeer>, Option<Stop>) {
    match index_of(peers, name) {
        Some(i) => (
            peers.remove(i),
            match peers[i].actor {
                NetPeerRef::Pending(actor) => Some(Stop { actor, reason: StopReason::Established }),
                NetPeerRef::Actor(actor) => Some(Stop { actor, reason: StopReason::Replaced }),
                NetPeerRef::Added => None,
            },
        ),
        None => (peers, None),
    }
}

/// The peers with one for which `actor` runs.
pub open spec fn with_actor(peers: Seq<NetPeer>, name: String, actor: u64, now: Instant) -> Seq<NetPeer> {
    let peer = NetPeer { remote_id: name, last_shake: now, actor: NetPeerRef::Actor(actor) };
    match index_of(peers, name@) {
        Some(i) => peers.update(i, peer),
        None => peers.push(peer),
    }
}

/// The peers after the connection to one is gone, and what was running for it.
pub open spec fn on_disconnected(peers: Seq<NetPeer>, name: Seq<char>, now: Instant) -> (
    Seq<NetPeer>,
    Option<Stop>,
) {
    match index_of(peers, name) {
        Some(i) => match peers[i].actor {
            NetPeerRef::Actor(actor) => (
                peers.update(
                    i,
                    NetPeer { last_shake: now, actor: NetPeerRef::Added, ..peers[i] },
                ),
                Some(Stop { actor, reason: StopReason::Disconnected }),
            ),
            _ => (peers, None),
        },
        None => (peers, None),
    }
}

/// The peers with one for which the hand shake `shake` runs, if it is known.
pub open spec fn with_shake(peers: Seq<NetPeer>, name: Seq<char>, shake: u64) -> Seq<NetPeer> {
    match index_of(peers, name) {
        Some(i) => peers.update(i, NetPeer { actor: NetPeerRef::Pending(shake), ..peers[i] }),
        None => peers,
    }
}

/// The peers with one more that has been heard of, unless it is known.
pub open spec fn with_heard(peers: Seq<NetPeer>, name: String, now: Instant) -> Seq<NetPeer> {
    match index_of(peers, name@) {
        Some(_) => peers,
        None => peers.push(
            NetPeer { remote_id: name, last_shake: now, actor: NetPeerRef::Added },
        ),
    }
}

/// The peers with those that a peer tells of, in order. This node itself and the peer that tells are
/// no news.
pub open spec fn with_told(
    peers: Seq<NetPeer>,
    told: Seq<String>,
    id: Seq<char>,
    teller: Seq<char>,
    now: Instant,
) -> Seq<NetPeer>
    decreases told.len(),
{
    if told.len() == 0 {
        peers
    } else {
        let before = with_told(peers, told.drop_last(), id, teller, now);
        if told.last()@ == id || told.last()@ == teller {
            before
        } else {
            with_heard(before, told.last(), now)
        }
    }
}

/// The peers once one of them has been heard of.
pub open spec fn with_alive(peers: Seq<NetPeer>, name: String, now: Instant) -> Seq<NetPeer> {
    match index_of(peers, name@) {
        Some(i) => peers.update(i, NetPeer { last_shake: now, ..peers[i] }),
        None => with_heard(peers, name, now),
    }
}

/// The peer has not been heard of for too long.
pub open spec fn is_overdue(peer: NetPeer, now: Instant, check_timeout: Duration) -> bool {
    time_since(now, peer.last_shake) > check_timeout
}

/// What is left of a peer after a check: one that is overdue is dropped, unless it was connected, in
/// which case a hand shake is tried again.
pub open spec fn checked(peer: NetPeer, now: Instant, check_timeout: Duration) -> Option<NetPeer> {
    if !is_overdue(peer, now, check_timeout) {
        Some(peer)
    } else {
        match peer.actor {
            NetPeerRef::Actor(_) => Some(
                NetPeer { last_shake: now, actor: NetPeerRef::Added, ..peer },
            ),
            _ => None,
        }
    }
}

/// What is left of the peers after a check.
pub open spec fn all_checked(peers: Seq<NetPeer>, now: Instant, check_timeout: Duration) -> Seq<NetPeer>
    decreases peers.len(),
{
    if peers.len() == 0 {
        Seq::empty()
    } else {
        let before = all_checked(peers.drop_last(), now, check_timeout);
        match checked(peers.last(), now, check_timeout) {
            Some(peer) => before.push(peer),
            None => before,
        }
    }
}

/// What a check ends.
pub open spec fn check_stops(peers: Seq<NetPeer>, now: Instant, check_timeout: Duration) -> Seq<Stop>
    decreases peers.len(),
{
    if peers.len() == 0 {
        Seq::empty()
    } else {
        let before = check_stops(peers.drop_last(), now, check_timeout);
        if !is_overdue(peers.last(), now, check_timeout) {
            before
        } else {
            match peers.last().actor {
                NetPeerRef::Added => before,
                NetPeerRef::Pending(actor) => before.push(
                    Stop { actor, reason: StopReason::ShakeTimeout },
                ),
                NetPeerRef::Actor(actor) => before.push(
                    Stop { actor, reason: StopReason::AliveTimeout },
                ),
            }
        }
    }
}

/// The peers for which nothing is running.
pub open spec fn waiting(peers: Seq<NetPeer>) -> Seq<String>
    decreases peers.len(),
{
    if peers.len() == 0 {
        Seq::empty()
    } else {
        let before = waiting(peers.drop_last());
        if peers.last().actor is Added {
            before.push(peers.last().remote_id)
        } else {
            before
        }
    }
}

/// The names of the peers.
pub open spec fn names(peers: Seq<NetPeer>) -> Seq<String> {
    Seq::new(peers.len(), |i: int| peers[i].remote_id)
}

/// What is running for the peers that are connected.
pub open spec fn actors(peers: Seq<NetPeer>) -> Seq<u64>
    decreases peers.len(),
{
    if peers.len() == 0 {
        Seq::empty()
    } else {
        let before = actors(peers.drop_last());
        match peers.last().actor {
            NetPeerRef::Actor(actor) => before.push(actor),
            _ => before,
        }
    }
}

/// The peers that the description with this index and target is sent to: all that are connected but
/// the target.
pub open spec fn relays_of(peers: Seq<NetPeer>, desc: usize, target: Seq<char>) -> Seq<Relay>
    decreases peers.len(),
{
    if peers.len() == 0 {
        Seq::empty()
    } else {
        let before = relays_of(peers.drop_last(), desc, target);
        match peers.last().actor {
            NetPeerRef::Actor(peer) => if peers.last().remote_id@ != target {
                before.push(Relay { desc, peer })
            } else {
                before
            },
            _ => before,
        }
    }
}

/// The relays of all descriptions, where `targets` are their targets.
pub open spec fn relays(peers: Seq<NetPeer>, targets: Seq<String>) -> Seq<Relay>
    decreases targets.len(),
{
    if targets.len() == 0 {
        Seq::empty()
    } else {
        relays(peers, targets.drop_last()) + relays_of(
            peers,
            (targets.len() - 1) as usize,
            targets.last()@,
        )
    }
}

/// The network as one peer sees it.
pub struct NetActorState {
    pub id: String,
    pub check_timeout: Duration,
    pub peers: Vec<NetPeer>,
}

/// The index of the peer with this name.
fn find_peer(peers: &Vec<NetPeer>, name: &String) -> (result: Option<usize>)
    ensures
        match result {
            Some(i) => i < peers.len() && peers[i as int].remote_id@ == name@ && index_of(
                peers@,
                name@,
            ) == Some(i as int),
            None => index_of(peers@, name@) is None,
        },
{
    let mut found: Option<usize> = None;
    let mut i: usize = 0;
    while i < peers.len()
        invariant
            i <= peers.len(),
            match found {
                Some(b) => b < i && peers[b as int].remote_id@ == name@ && peer_index(
                    peers@,
                    name@,
                    i as int,
                ) == Some(b as int),
                None => peer_index(peers@, name@, i as int) is None,
            },
        decreases peers.len() - i,
    {
        if found.is_none() && peers[i].remote_id == *name {
            found = Some(i);
        }
        i += 1;
    }
    found
}

/// Where there is a peer with the name, [`index_of`] gives one, and only then.
proof fn lemma_peer_index(peers: Seq<NetPeer>, name: Seq<char>, n: int)
    requires
        n <= peers.len(),
    ensures
        match peer_index(peers, name, n) {
            Some(i) => 0 <= i < n && peers[i].remote_id@ == name,
            None => forall|i: int| 0 <= i < n ==> (#[trigger] peers[i]).remote_id@ != name,
        },
    decreases n,
{
    if n > 0 {
        lemma_peer_index(peers, name, n - 1);
    }
}

/// Hearing of peers keeps their names distinct.
proof fn lemma_told_distinct(
    peers: Seq<NetPeer>,
    told: Seq<String>,
    id: Seq<char>,
    teller: Seq<char>,
    now: Instant,
)
    requires
        names_distinct(peers),
    ensures
        names_distinct(with_told(peers, told, id, teller, now)),
    decreases told.len(),
{
    if told.len() > 0 {
        lemma_told_distinct(peers, told.drop_last(), id, teller, now);
        let before = with_told(peers, told.drop_last(), id, teller, now);
        lemma_peer_index(before, told.last()@, before.len() as int);
    }
}

/// `peer` has the name of one of the peers from the `i`-th on.
spec fn named_from(peers: Seq<NetPeer>, i: int, peer: NetPeer) -> bool {
    exists|j: int| i <= j < peers.len() && (#[trigger] peers[j]).remote_id@ == peer.remote_id@
}

/// A check keeps the names of the peers distinct.
proof fn lemma_checked_distinct(peers: Seq<NetPeer>, now: Instant, check_timeout: Duration)
    ensures
        all_checked(peers, now, check_timeout).len() <= peers.len(),
        forall|i: int|
            0 <= i < all_checked(peers, now, check_timeout).len() ==> named_from(
                peers,
                i,
                #[trigger] all_checked(peers, now, check_timeout)[i],
            ),
        names_distinct(peers) ==> names_distinct(all_checked(peers, now, check_timeout)),
    decreases peers.len(),
{
    if peers.len() > 0 {
        let rest = peers.drop_last();
        let last = peers.len() - 1;
        lemma_checked_distinct(rest, now, check_timeout);
        let before = all_checked(rest, now, check_timeout);
        let all = all_checked(peers, now, check_timeout);
        assert forall|i: int| 0 <= i < all.len() implies named_from(peers, i, #[trigger] all[i]) by {
            if i < before.len() {
                assert(all[i] == before[i]);
                assert(named_from(rest, i, before[i]));
                let j = choose|j: int|
                    i <= j < rest.len() && (#[trigger] rest[j]).remote_id@ == before[i].remote_id@;
                assert(peers[j] == rest[j]);
            } else {
                assert(all[i].remote_id == peers[last].remote_id);
            }
        }
        if names_distinct(peers) {
            assert forall|i: int, j: int| 0 <= i < j < rest.len() implies (
            #[trigger] rest[i]).remote_id@ != (#[trigger] rest[j]).remote_id@ by {
                assert(rest[i] == peers[i] && rest[j] == peers[j]);
            }
            assert forall|i: int, j: int| 0 <= i < j < all.len() implies (
            #[trigger] all[i]).remote_id@ != (#[trigger] all[j]).remote_id@ by {
                assert(all[i] == before[i]);
                if j < before.len() {
                    assert(all[j] == before[j]);
                } else {
                    assert(named_from(rest, i, before[i]));
                    let k = choose|k: int|
                        i <= k < rest.len() && (#[trigger] rest[k]).remote_id@
                            == before[i].remote_id@;
                    assert(rest[k] == peers[k] && all[j].remote_id == peers[last].remote_id);
                }
            }
        }
    }
}

impl NetActorState {
    /// The network of the peer `id`, which knows no other peer yet.
    pub fn new(id: String, check_timeout: Duration) -> (state: NetActorState)
        ensures
            state.wf(),
            state.id == id,
            state.check_timeout == check_timeout,
            state.peers@ == Seq::<NetPeer>::empty(),
    {
        NetActorState { id, check_timeout, peers: Vec::new() }
    }

    /// No two peers have the same name.
    pub open spec fn wf(&self) -> bool {
        names_distinct(self.peers@)
    }

    /// A connection to a peer has been made. Whatever was running for it comes to an end; what runs for
    /// the new connection is reported with [`NetActorState::peer_spawned`].
    pub fn new_peer(&mut self, remote_id: &String) -> (stop: Option<Stop>)
        requires
            old(self).wf(),
        ensures
            final(self).wf(),
            final(self).id == old(self).id,
            final(self).check_timeout == old(self).check_timeout,
            (final(self).peers@, stop) == on_connected(old(self).peers@, remote_id@),
            match index_of(old(self).peers@, remote_id@) {
                Some(i) => final(self).peers@ == old(self).peers@.remove(i) && stop == match old(
                    self).peers@[i].actor {
                    NetPeerRef::Pending(actor) => Some(
                        Stop { actor, reason: StopReason::Established },
                    ),
                    NetPeerRef::Actor(actor) => Some(Stop { actor, reason: StopReason::Replaced }),
                    NetPeerRef::Added => None,
                },
                None => final(self).peers@ == old(self).peers@ && stop is None,
            },
    {
        match find_peer(&self.peers, remote_id) {
            Some(i) => {
                let peer = self.peers.remove(i);
                match peer.actor {
                    NetPeerRef::Pending(actor) => Some(
                        Stop { actor, reason: StopReason::Established },
                    ),
                    NetPeerRef::Actor(actor) => Some(Stop { actor, reason: StopReason::Replaced }),
                    NetPeerRef::Added => None,
                }
            },
            None => None,
        }
    }

    /// `actor` runs for the connection to a peer.
    pub fn peer_spawned(&mut self, remote_id: String, actor: u64, now: Instant)
        requires
            old(self).wf(),
        ensures
            final(self).wf(),
            final(self).id == old(self).id,
            final(self).check_timeout == old(self).check_timeout,
            final(self).peers@ == with_actor(old(self).peers@, remote_id, actor, now),
            final(self).peers@ == ({
                let peer = NetPeer { remote_id, last_shake: now, actor: NetPeerRef::Actor(actor) };
                match index_of(old(self).peers@, remote_id@) {
                    Some(i) => old(self).peers@.update(i, peer),
                    None => old(self).peers@.push(peer),
                }
            }),
    {
        proof {
            lemma_peer_index(self.peers@, remote_id@, self.peers.len() as int);
        }
        let found = find_peer(&self.peers, &remote_id);
        let peer = NetPeer { remote_id, last_shake: now, actor: NetPeerRef::Actor(actor) };
        match found {
            Some(i) => {
                self.peers.set(i, peer);
            },
            None => {
                self.peers.push(peer);
            },
        }
    }

    /// A peer is alive, and tells of others.
    pub fn alive(&mut self, remote_id: String, told: &Vec<String>, now: Instant)
        requires
            old(self).wf(),
        ensures
            final(self).wf(),
            final(self).id == old(self).id,
            final(self).check_timeout == old(self).check_timeout,
            final(self).peers@ == with_told(
                with_alive(old(self).peers@, remote_id, now),
                told@,
                old(self).id@,
                remote_id@,
                now,
            ),
    {
        proof {
            lemma_peer_index(self.peers@, remote_id@, self.peers.len() as int);
        }
        match find_peer(&self.peers, &remote_id) {
            Some(i) => {
                let actor = self.peers[i].actor;
                let name = self.peers[i].remote_id.clone();
                self.peers.set(i, NetPeer { remote_id: name, last_shake: now, actor });
            },
            None => {
                self.peers.push(
                    NetPeer {
                        remote_id: remote_id.clone(),
                        last_shake: now,
                        actor: NetPeerRef::Added,
                    },
                );
            },
        }
        let ghost renewed = self.peers@;
        assert(renewed =~= with_alive(old(self).peers@, remote_id, now));
        assert(names_distinct(renewed));
        let mut k: usize = 0;
        while k < told.len()
            invariant
                k <= told.len(),
                self.id == old(self).id,
                self.check_timeout == old(self).check_timeout,
                self.peers@ == with_told(
                    renewed,
                    told@.take(k as int),
                    old(self).id@,
                    remote_id@,
                    now,
                ),
            decreases told.len() - k,
        {
            proof {
                assert(told@.take(k + 1).drop_last() =~= told@.take(k as int));
                assert(told@.take(k + 1).last() == told@[k as int]);
            }
            if told[k] != self.id && told[k] != remote_id {
                if find_peer(&self.peers, &told[k]).is_none() {
                    self.peers.push(
                        NetPeer {
                            remote_id: told[k].clone(),
                            last_shake: now,
                            actor: NetPeerRef::Added,
                        },
                    );
                }
            }
            k += 1;
        }
        proof {
            assert(told@.take(told.len() as int) =~= told@);
            lemma_told_distinct(renewed, told@, old(self).id@, remote_id@, now);
        }
    }

    /// Takes what a connected peer tells, and gives where a description goes.
    pub fn handle_signal(&mut self, remote_id: String, signal: Signal, now: Instant) -> (action:
        DescAction)
        requires
            old(self).wf(),
        ensures
            final(self).wf(),
            final(self).id == old(self).id,
            final(self).check_timeout == old(self).check_timeout,
            match signal {
                Signal::Alive(told) => action == DescAction::Ignore && final(self).peers@
                    == with_told(
                    with_alive(old(self).peers@, remote_id, now),
                    told@,
                    old(self).id@,
                    remote_id@,
                    now,
                ),
                Signal::Desc(packet) => *final(self) == *old(self) && action == old(
                    self,
                ).desc_action(packet),
            },
    {
        match signal {
            Signal::Alive(told) => {
                self.alive(remote_id, &told, now);
                DescAction::Ignore
            },
            Signal::Desc(packet) => self.remote_desc(packet),
        }
    }

    /// Where a description goes.
    pub open spec fn desc_action(&self, packet: DescPacket) -> DescAction {
        if packet.target_id@ == self.id@ {
            match index_of(self.peers@, packet.from_id@) {
                Some(i) => match self.peers@[i].actor {
                    NetPeerRef::Pending(shake) => DescAction::PutDesc { shake, desc: packet.desc },
                    _ => DescAction::Ignore,
                },
                None => DescAction::Ignore,
            }
        } else {
            match index_of(self.peers@, packet.target_id@) {
                Some(i) => match self.peers@[i].actor {
                    NetPeerRef::Actor(peer) => DescAction::Forward { peer, packet },
                    _ => DescAction::Ignore,
                },
                None => DescAction::Ignore,
            }
        }
    }

    /// Where a description goes: one for this node to the hand shake with its sender, any other to the
    /// peer that it is for, if that is connected. It is never sent on from there.
    pub fn remote_desc(&self, packet: DescPacket) -> (action: DescAction)
        ensures
            action == self.desc_action(packet),
    {
        if packet.target_id == self.id {
            match find_peer(&self.peers, &packet.from_id) {
                Some(i) => match self.peers[i].actor {
                    NetPeerRef::Pending(shake) => DescAction::PutDesc { shake, desc: packet.desc },
                    _ => DescAction::Ignore,
                },
                None => DescAction::Ignore,
            }
        } else {
            match find_peer(&self.peers, &packet.target_id) {
                Some(i) => match self.peers[i].actor {
                    NetPeerRef::Actor(peer) => DescAction::Forward { peer, packet },
                    _ => DescAction::Ignore,
                },
                None => DescAction::Ignore,
            }
        }
    }

    /// The connection to a peer is gone. Where it was connected, a hand shake is tried again.
    pub fn peer_disconnected(&mut self, remote_id: &String, now: Instant) -> (stop: Option<Stop>)
        requires
            old(self).wf(),
        ensures
            final(self).wf(),
            final(self).id == old(self).id,
            final(self).check_timeout == old(self).check_timeout,
            (final(self).peers@, stop) == on_disconnected(old(self).peers@, remote_id@, now),
            match index_of(old(self).peers@, remote_id@) {
                Some(i) => match old(self).peers@[i].actor {
                    NetPeerRef::Actor(actor) => stop == Some(
                        Stop { actor, reason: StopReason::Disconnected },
                    ) && final(self).peers@ == old(self).peers@.update(
                        i,
                        NetPeer {
                            last_shake: now,
                            actor: NetPeerRef::Added,
                            ..old(self).peers@[i]
                        },
                    ),
                    _ => stop is None && final(self).peers@ == old(self).peers@,
                },
                None => stop is None && final(self).peers@ == old(self).peers@,
            },
    {
        match find_peer(&self.peers, remote_id) {
            Some(i) => match self.peers[i].actor {
                NetPeerRef::Actor(actor) => {
                    let name = self.peers[i].remote_id.clone();
                    self.peers.set(
                        i,
                        NetPeer { remote_id: name, last_shake: now, actor: NetPeerRef::Added },
                    );
                    Some(Stop { actor, reason: StopReason::Disconnected })
                },
                _ => None,
            },
            None => None,
        }
    }

    /// What is told to the peers that are connected: the names of all known peers.
    pub fn send_alive(&self) -> (result: (Vec<String>, Vec<u64>))
        ensures
            result.0@ == names(self.peers@),
            result.1@ == actors(self.peers@),
    {
        let mut told: Vec<String> = Vec::new();
        let mut to: Vec<u64> = Vec::new();
        let mut i: usize = 0;
        while i < self.peers.len()
            invariant
                i <= self.peers.len(),
                told.len() == i,
                forall|j: int| 0 <= j < i ==> told[j] == self.peers[j].remote_id,
                to@ == actors(self.peers@.take(i as int)),
            decreases self.peers.len() - i,
        {
            proof {
                assert(self.peers@.take(i + 1).drop_last() =~= self.peers@.take(i as int));
                assert(self.peers@.take(i + 1).last() == self.peers@[i as int]);
            }
            told.push(self.peers[i].remote_id.clone());
            match self.peers[i].actor {
                NetPeerRef::Actor(actor) => {
                    to.push(actor);
                },
                _ => {},
            }
            i += 1;
        }
        assert(self.peers@.take(self.peers.len() as int) =~= self.peers@);
        assert(told@ =~= names(self.peers@));
        (told, to)
    }

    /// First part of a check: whether to connect to the servers, as no peer is known.
    pub fn is_alone(&self) -> (result: bool)
        ensures
            result == (self.peers@.len() == 0),
    {
        self.peers.len() == 0
    }

    /// Second part of a check: drops the peers that have not been heard of in time, and gives what is
    /// to be ended and the peers with which a hand shake is to be tried.
    pub fn check(&mut self, now: Instant) -> (result: (Vec<Stop>, Vec<String>))
        requires
            old(self).wf(),
            forall|i: int|
                0 <= i < old(self).peers@.len() ==> (#[trigger] old(self).peers@[i]).last_shake <= now,
        ensures
            final(self).wf(),
            final(self).id == old(self).id,
            final(self).check_timeout == old(self).check_timeout,
            final(self).peers@ == all_checked(old(self).peers@, now, old(self).check_timeout),
            result.0@ == check_stops(old(self).peers@, now, old(self).check_timeout),
            result.1@ == waiting(final(self).peers@),
    {
        let ghost before = self.peers@;
        let ghost timeout = self.check_timeout;
        proof {
            lemma_checked_distinct(before, now, timeout);
        }
        let mut kept: Vec<NetPeer> = Vec::new();
        let mut stops: Vec<Stop> = Vec::new();
        let mut shakes: Vec<String> = Vec::new();
        let mut i: usize = 0;
        while i < self.peers.len()
            invariant
                i <= self.peers.len(),
                self.peers@ == before,
                self.check_timeout == timeout,
                kept@ == all_checked(before.take(i as int), now, timeout),
                stops@ == check_stops(before.take(i as int), now, timeout),
                shakes@ == waiting(kept@),
            decreases self.peers.len() - i,
        {
            proof {
                assert(before.take(i + 1).drop_last() =~= before.take(i as int));
                assert(before.take(i + 1).last() == before[i as int]);
            }
            let actor = self.peers[i].actor;
            let last_shake = self.peers[i].last_shake;
            let name = self.peers[i].remote_id.clone();
            let overdue = elapsed(now, last_shake) > self.check_timeout;
            let ghost held = kept@;
            let remains: Option<NetPeer> = if !overdue {
                Some(NetPeer { remote_id: name, last_shake, actor })
            } else {
                match actor {
                    NetPeerRef::Added => None,
                    NetPeerRef::Pending(actor) => {
                        stops.push(Stop { actor, reason: StopReason::ShakeTimeout });
                        None
                    },
                    NetPeerRef::Actor(actor) => {
                        stops.push(Stop { actor, reason: StopReason::AliveTimeout });
                        Some(
                            NetPeer { remote_id: name, last_shake: now, actor: NetPeerRef::Added },
                        )
                    },
                }
            };
            assert(remains == checked(before[i as int], now, timeout));
            match remains {
                Some(peer) => {
                    match peer.actor {
                        NetPeerRef::Added => {
                            shakes.push(peer.remote_id.clone());
                        },
                        _ => {},
                    }
                    kept.push(peer);
                    assert(kept@.drop_last() =~= held);
                },
                None => {},
            }
            i += 1;
        }
        assert(before.take(self.peers.len() as int) =~= before);
        self.peers = kept;
        (stops, shakes)
    }

    /// `shake` runs for the hand shake with a peer.
    pub fn shake_spawned(&mut self, remote_id: &String, shake: u64)
        requires
            old(self).wf(),
        ensures
            final(self).wf(),
            final(self).id == old(self).id,
            final(self).check_timeout == old(self).check_timeout,
            final(self).peers@ == with_shake(old(self).peers@, remote_id@, shake),
            final(self).peers@ == match index_of(old(self).peers@, remote_id@) {
                Some(i) => old(self).peers@.update(
                    i,
                    NetPeer { actor: NetPeerRef::Pending(shake), ..old(self).peers@[i] },
                ),
                None => old(self).peers@,
            },
    {
        match find_peer(&self.peers, remote_id) {
            Some(i) => {
                let name = self.peers[i].remote_id.clone();
                let last_shake = self.peers[i].last_shake;
                self.peers.set(
                    i,
                    NetPeer { remote_id: name, last_shake, actor: NetPeerRef::Pending(shake) },
                );
            },
            None => {},
        }
    }

    /// Last part of a check: the peers to which the descriptions of pending hand shakes are sent, where
    /// `targets` are the peers that the descriptions are for.
    pub fn relay_descs(&self, targets: &Vec<String>) -> (result: Vec<Relay>)
        ensures
            result@ == relays(self.peers@, targets@),
    {
        let mut result: Vec<Relay> = Vec::new();
        let mut k: usize = 0;
        while k < targets.len()
            invariant
                k <= targets.len(),
                result@ == relays(self.peers@, targets@.take(k as int)),
            decreases targets.len() - k,
        {
            proof {
                assert(targets@.take(k + 1).drop_last() =~= targets@.take(k as int));
                assert(targets@.take(k + 1).last() == targets@[k as int]);
            }
            let ghost held = result@;
            let mut i: usize = 0;
            assert(held =~= held + relays_of(self.peers@.take(0), k, targets@[k as int]@));
            while i < self.peers.len()
                invariant
                    i <= self.peers.len(),
                    k < targets.len(),
                    result@ == held + relays_of(
                        self.peers@.take(i as int),
                        k,
                        targets@[k as int]@,
                    ),
                decreases self.peers.len() - i,
            {
                proof {
                    assert(self.peers@.take(i + 1).drop_last() =~= self.peers@.take(i as int));
                    assert(self.peers@.take(i + 1).last() == self.peers@[i as int]);
                }
                match self.peers[i].actor {
                    NetPeerRef::Actor(peer) => {
                        if self.peers[i].remote_id != targets[k] {
                            result.push(Relay { desc: k, peer });
                        }
                    },
                    _ => {},
                }
                i += 1;
            }
            assert(self.peers@.take(self.peers.len() as int) =~= self.peers@);
            k += 1;
        }
        assert(targets@.take(targets.len() as int) =~= targets@);
        result
    }
}

/// A peer never comes to know itself from what others tell.
pub proof fn lemma_never_meets_itself(
    peers: Seq<NetPeer>,
    told: Seq<String>,
    id: Seq<char>,
    teller: Seq<char>,
    now: Instant,
)
    requires
        index_of(peers, id) is None,
    ensures
        index_of(with_told(peers, told, id, teller, now), id) is None,
    decreases told.len(),
{
    if told.len() > 0 {
        lemma_never_meets_itself(peers, told.drop_last(), id, teller, now);
        let before = with_told(peers, told.drop_last(), id, teller, now);
        let all = with_told(peers, told, id, teller, now);
        lemma_peer_index(before, id, before.len() as int);
        lemma_peer_index(all, id, all.len() as int);
        lemma_peer_index(before, told.last()@, before.len() as int);
    }
}

/// After a check no peer is left that is overdue.
pub proof fn lemma_check_leaves_none_overdue(
    peers: Seq<NetPeer>,
    now: Instant,
    check_timeout: Duration,
    i: int,
)
    requires
        0 <= i < all_checked(peers, now, check_timeout).len(),
    ensures
        !is_overdue(all_checked(peers, now, check_timeout)[i], now, check_timeout),
    decreases peers.len(),
{
    if i < all_checked(peers.drop_last(), now, check_timeout).len() {
        lemma_check_leaves_none_overdue(peers.drop_last(), now, check_timeout, i);
    }
}

/// The texts of a list, each once, in the order in which they first occur.
pub open spec fn distinct(list: Seq<String>) -> Seq<String>
    decreases list.len(),
{
    if list.len() == 0 {
        Seq::empty()
    } else {
        let before = distinct(list.drop_last());
        if listed(before, list.last()@) {
            before
        } else {
            before.push(list.last())
        }
    }
}

/// The texts of a list that are not among others.
pub open spec fn not_among(list: Seq<String>, others: Seq<String>) -> Seq<String>
    decreases list.len(),
{
    if list.len() == 0 {
        Seq::empty()
    } else {
        let before = not_among(list.drop_last(), others);
        if listed(others, list.last()@) {
            before
        } else {
            before.push(list.last())
        }
    }
}

/// The servers to which attempts to connect are under way.
pub struct WSConnectActorState {
    pub connecting: Vec<String>,
}

impl WSConnectActorState {
    /// No attempt is under way.
    pub fn new() -> (state: WSConnectActorState)
        ensures
            state.connecting@ == Seq::<String>::empty(),
    {
        WSConnectActorState { connecting: Vec::new() }
    }

    /// The servers at which an attempt starts now: those at which none is under way.
    pub fn connect(&mut self, servers: &Vec<String>) -> (started: Vec<String>)
        ensures
            final(self).connecting@ == distinct(servers@),
            started@ == not_among(distinct(servers@), old(self).connecting@),
    {
        let mut all: Vec<String> = Vec::new();
        let mut started: Vec<String> = Vec::new();
        let mut i: usize = 0;
        while i < servers.len()
            invariant
                i <= servers.len(),
                self.connecting@ == old(self).connecting@,
                all@ == distinct(servers@.take(i as int)),
                started@ == not_among(all@, old(self).connecting@),
            decreases servers.len() - i,
        {
            proof {
                assert(servers@.take(i + 1).drop_last() =~= servers@.take(i as int));
                assert(servers@.take(i + 1).last() == servers@[i as int]);
            }
            if !is_listed(&all, &servers[i]) {
                let ghost held = all@;
                all.push(servers[i].clone());
                assert(all@.drop_last() =~= held);
                if !is_listed(&self.connecting, &servers[i]) {
                    started.push(servers[i].clone());
                }
            }
            i += 1;
        }
        assert(servers@.take(servers.len() as int) =~= servers@);
        self.connecting = all;
        started
    }

    /// An attempt has come to an end.
    pub fn connected(&mut self, server: &String)
        ensures
            final(self).connecting@ == unlisted(old(self).connecting@, server@),
    {
        self.connecting = unlist(&self.connecting, server);
    }
}

proof fn lemma_first_of_name(peers: Seq<NetPeer>, name: Seq<char>, n: int)
    requires
        0 <= n <= peers.len(),
    ensures
        match peer_index(peers, name, n) {
            Some(i) => 0 <= i < n && peers[i].remote_id@ == name && forall|j: int|
                0 <= j < i ==> (#[trigger] peers[j]).remote_id@ != name,
            None => forall|j: int| 0 <= j < n ==> (#[trigger] peers[j]).remote_id@ != name,
        },
    decreases n,
{
    if n > 0 {
        lemma_first_of_name(peers, name, n - 1);
    }
}

/// A peer is known by its name, if and only if there is one with it.
pub proof fn lemma_known_by_name(peers: Seq<NetPeer>, i: int, name: Seq<char>)
    requires
        names_distinct(peers),
    ensures
        0 <= i < peers.len() ==> index_of(peers, peers[i].remote_id@) == Some(i),
        index_of(peers, name) is None <==> forall|j: int|
            0 <= j < peers.len() ==> (#[trigger] peers[j]).remote_id@ != name,
{
    lemma_first_of_name(peers, name, peers.len() as int);
    if 0 <= i < peers.len() {
        lemma_first_of_name(peers, peers[i].remote_id@, peers.len() as int);
        let k = index_of(peers, peers[i].remote_id@)->0;
        if k < i {
            assert(peers[k].remote_id@ != peers[i].remote_id@);
        }
        if i < k {
            assert(peers[i].remote_id@ != peers[k].remote_id@);
        }
    }
}

/// From what a peer tells this node comes to know the peers that are named, but neither itself nor the
/// teller; nothing is running for the new ones. Those that it knew before stay as they are.
pub proof fn lemma_told_peers_known(
    peers: Seq<NetPeer>,
    told: Seq<String>,
    id: Seq<char>,
    teller: Seq<char>,
    now: Instant,
    name: Seq<char>,
)
    ensures
        ({
            let after = with_told(peers, told, id, teller, now);
            &&& after.len() >= peers.len()
            &&& forall|i: int| 0 <= i < peers.len() ==> #[trigger] after[i] == peers[i]
            &&& forall|i: int|
                peers.len() <= i < after.len() ==> (#[trigger] after[i]).actor is Added
                    && after[i].last_shake == now && after[i].remote_id@ != id
                    && after[i].remote_id@ != teller
            &&& index_of(after, name) is Some <==> index_of(peers, name) is Some || (name != id && name
                != teller && listed(told, name))
        }),
    decreases told.len(),
{
    if told.len() > 0 {
        let rest = told.drop_last();
        let before = with_told(peers, rest, id, teller, now);
        let after = with_told(peers, told, id, teller, now);
        lemma_told_peers_known(peers, rest, id, teller, now, name);
        lemma_first_of_name(before, name, before.len() as int);
        lemma_first_of_name(after, name, after.len() as int);
        lemma_first_of_name(before, told.last()@, before.len() as int);
        if listed(rest, name) {
            let i = choose|i: int| 0 <= i < rest.len() && (#[trigger] rest[i])@ == name;
            assert(told[i] == rest[i]);
        }
        if listed(told, name) {
            let i = choose|i: int| 0 <= i < told.len() && (#[trigger] told[i])@ == name;
            if i < rest.len() {
                assert(rest[i] == told[i]);
            }
        }
        assert(told[told.len() - 1] == told.last());
        if after != before {
            assert(after[before.len() as int].remote_id@ == told.last()@);
        }
        assert forall|j: int| 0 <= j < before.len() implies #[trigger] after[j] == before[j] by {}
        if let Some(j) = index_of(before, name) {
            assert(after[j] == before[j]);
        }
        if let Some(j) = index_of(after, name) {
            if j < before.len() {
                assert(before[j] == after[j]);
            }
        }
    }
}

/// A peer that has been heard of counts as heard of from now on and keeps what is running for it; one
/// that was not known is known then, with nothing running. The others stay as they are.
pub proof fn lemma_alive_peer(peers: Seq<NetPeer>, name: String, now: Instant)
    requires
        names_distinct(peers),
    ensures
        ({
            let after = with_alive(peers, name, now);
            match index_of(peers, name@) {
                Some(i) => after.len() == peers.len() && after[i].last_shake == now && after[i].actor
                    == peers[i].actor && after[i].remote_id == peers[i].remote_id && forall|j: int|
                    0 <= j < peers.len() && j != i ==> #[trigger] after[j] == peers[j],
                None => after == peers.push(
                    NetPeer { remote_id: name, last_shake: now, actor: NetPeerRef::Added },
                ),
            }
        }),
{
    lemma_first_of_name(peers, name@, peers.len() as int);
}

/// A description for this node goes to the hand shake with its sender, if one is pending. Any other goes
/// as it is to the peer that it is for, if that is connected; and otherwise nowhere.
pub proof fn lemma_descriptions_find_their_way(
    state: NetActorState,
    packet: DescPacket,
    i: int,
)
    requires
        state.wf(),
        0 <= i < state.peers@.len(),
        state.peers@[i].remote_id@ == if packet.target_id@ == state.id@ {
            packet.from_id@
        } else {
            packet.target_id@
        },
    ensures
        packet.target_id@ == state.id@ ==> state.desc_action(packet) == match state.peers@[i].actor {
            NetPeerRef::Pending(shake) => DescAction::PutDesc { shake, desc: packet.desc },
            _ => DescAction::Ignore,
        },
        packet.target_id@ != state.id@ ==> state.desc_action(packet) == match state.peers@[i].actor {
            NetPeerRef::Actor(peer) => DescAction::Forward { peer, packet },
            _ => DescAction::Ignore,
        },
{
    lemma_known_by_name(state.peers@, i, packet.from_id@);
}

/// A description from or for a peer that is not known goes nowhere.
pub proof fn lemma_unknown_descriptions_ignored(state: NetActorState, packet: DescPacket)
    requires
        forall|i: int|
            0 <= i < state.peers@.len() ==> (#[trigger] state.peers@[i]).remote_id@ != if packet.target_id@
                == state.id@ {
                packet.from_id@
            } else {
                packet.target_id@
            },
    ensures
        state.desc_action(packet) is Ignore,
{
    let name = if packet.target_id@ == state.id@ {
        packet.from_id@
    } else {
        packet.target_id@
    };
    lemma_first_of_name(state.peers@, name, state.peers@.len() as int);
}

/// A peer is overdue when more time than the timeout has passed since it was heard of. It is dropped
/// then, and its hand shake ended; one that was connected stays, to be tried again, and what ran for it
/// is ended. A peer that is not overdue is left alone.
pub proof fn lemma_peer_checked(peer: NetPeer, now: Instant, check_timeout: Duration)
    requires
        peer.last_shake <= now,
    ensures
        ({
            let overdue = now - peer.last_shake > check_timeout;
            let left = all_checked(seq![peer], now, check_timeout);
            let stops = check_stops(seq![peer], now, check_timeout);
            &&& !overdue ==> left == seq![peer] && stops.len() == 0
            &&& overdue ==> match peer.actor {
                NetPeerRef::Added => left.len() == 0 && stops.len() == 0,
                NetPeerRef::Pending(actor) => left.len() == 0 && stops == seq![
                    Stop { actor, reason: StopReason::ShakeTimeout },
                ],
                NetPeerRef::Actor(actor) => left == seq![
                    NetPeer {
                        remote_id: peer.remote_id,
                        last_shake: now,
                        actor: NetPeerRef::Added,
                    },
                ] && stops == seq![Stop { actor, reason: StopReason::AliveTimeout }],
            }
        }),
{
    let one = seq![peer];
    assert(one.drop_last() =~= Seq::<NetPeer>::empty());
    reveal_with_fuel(all_checked, 2);
    reveal_with_fuel(check_stops, 2);
    assert(Seq::<NetPeer>::empty().push(peer) =~= one);
    let again = NetPeer { remote_id: peer.remote_id, last_shake: now, actor: NetPeerRef::Added };
    assert(Seq::<NetPeer>::empty().push(again) =~= seq![again]);
    if let NetPeerRef::Pending(actor) = peer.actor {
        let stop = Stop { actor, reason: StopReason::ShakeTimeout };
        assert(Seq::<Stop>::empty().push(stop) =~= seq![stop]);
    }
    if let NetPeerRef::Actor(actor) = peer.actor {
        let stop = Stop { actor, reason: StopReason::AliveTimeout };
        assert(Seq::<Stop>::empty().push(stop) =~= seq![stop]);
    }
}

/// Peers are checked one by one, in order.
pub proof fn lemma_peers_one_by_one(
    a: Seq<NetPeer>,
    b: Seq<NetPeer>,
    now: Instant,
    check_timeout: Duration,
    desc: usize,
    target: Seq<char>,
)
    ensures
        all_checked(a + b, now, check_timeout) == all_checked(a, now, check_timeout) + all_checked(
            b,
            now,
            check_timeout,
        ),
        check_stops(a + b, now, check_timeout) == check_stops(a, now, check_timeout) + check_stops(
            b,
            now,
            check_timeout,
        ),
        waiting(a + b) == waiting(a) + waiting(b),
        actors(a + b) == actors(a) + actors(b),
        names(a + b) == names(a) + names(b),
        relays_of(a + b, desc, target) == relays_of(a, desc, target) + relays_of(b, desc, target),
    decreases b.len(),
{
    assert(names(a + b) =~= names(a) + names(b));
    if b.len() == 0 {
        assert(a + b =~= a);
        assert(all_checked(a, now, check_timeout) + all_checked(b, now, check_timeout)
            =~= all_checked(a, now, check_timeout));
        assert(check_stops(a, now, check_timeout) + check_stops(b, now, check_timeout)
            =~= check_stops(a, now, check_timeout));
        assert(waiting(a) + waiting(b) =~= waiting(a));
        assert(actors(a) + actors(b) =~= actors(a));
        assert(relays_of(a, desc, target) + relays_of(b, desc, target) =~= relays_of(
            a,
            desc,
            target,
        ));
    } else {
        lemma_peers_one_by_one(a, b.drop_last(), now, check_timeout, desc, target);
        assert((a + b).drop_last() =~= a + b.drop_last());
        assert((a + b).last() == b.last());
        assert(all_checked(a + b, now, check_timeout) =~= all_checked(a, now, check_timeout)
            + all_checked(b, now, check_timeout));
        assert(check_stops(a + b, now, check_timeout) =~= check_stops(a, now, check_timeout)
            + check_stops(b, now, check_timeout));
        assert(waiting(a + b) =~= waiting(a) + waiting(b));
        assert(actors(a + b) =~= actors(a) + actors(b));
        assert(relays_of(a + b, desc, target) =~= relays_of(a, desc, target) + relays_of(
            b,
            desc,
            target,
        ));
    }
}

/// What is done about a single peer: a hand shake is tried where nothing is running, its name is told
/// to all, it is told the names where it is connected, and then it is also sent every description that
/// is not for it.
pub proof fn lemma_single_peer(peer: NetPeer, desc: usize, target: Seq<char>)
    ensures
        ({
            let one = seq![peer];
            &&& waiting(one) == if peer.actor is Added {
                seq![peer.remote_id]
            } else {
                Seq::empty()
            }
            &&& names(one) == seq![peer.remote_id]
            &&& match peer.actor {
                NetPeerRef::Actor(actor) => actors(one) == seq![actor] && relays_of(
                    one,
                    desc,
                    target,
                ) == if peer.remote_id@ == target {
                    Seq::empty()
                } else {
                    seq![Relay { desc, peer: actor }]
                },
                _ => actors(one).len() == 0 && relays_of(one, desc, target).len() == 0,
            }
        }),
{
    let one = seq![peer];
    assert(one.drop_last() =~= Seq::<NetPeer>::empty());
    reveal_with_fuel(waiting, 2);
    reveal_with_fuel(actors, 2);
    reveal_with_fuel(relays_of, 2);
    assert(Seq::<String>::empty().push(peer.remote_id) =~= seq![peer.remote_id]);
    assert(names(one) =~= seq![peer.remote_id]);
    if let NetPeerRef::Actor(actor) = peer.actor {
        assert(Seq::<u64>::empty().push(actor) =~= seq![actor]);
        let relay = Relay { desc, peer: actor };
        assert(Seq::<Relay>::empty().push(relay) =~= seq![relay]);
    }
}

/// Each description is relayed by itself, in order, under its place in the list.
pub proof fn lemma_descriptions_one_by_one(peers: Seq<NetPeer>, targets: Seq<String>, target: String)
    requires
        targets.len() < usize::MAX,
    ensures
        relays(peers, Seq::empty()).len() == 0,
        relays(peers, targets.push(target)) == relays(peers, targets) + relays_of(
            peers,
            targets.len() as usize,
            target@,
        ),
{
    assert(targets.push(target).drop_last() =~= targets);
}

/// Of a list of servers each is tried once, and only where no attempt is under way.
pub proof fn lemma_servers_tried_once(list: Seq<String>, others: Seq<String>, text: Seq<char>)
    ensures
        listed(distinct(list), text) <==> listed(list, text),
        forall|i: int, j: int|
            0 <= i < j < distinct(list).len() ==> (#[trigger] distinct(list)[i])@ != (
            #[trigger] distinct(list)[j])@,
        listed(not_among(list, others), text) <==> listed(list, text) && !listed(others, text),
    decreases list.len(),
{
    if list.len() > 0 {
        let rest = list.drop_last();
        let last = list.last();
        lemma_servers_tried_once(rest, others, text);
        assert(rest.push(last) =~= list);
        lemma_listed_grown(rest, list, text);
        lemma_listed_grown(distinct(rest), distinct(list), text);
        lemma_listed_grown(not_among(rest, others), not_among(list, others), text);
        let before = distinct(rest);
        let all = distinct(list);
        assert forall|i: int, j: int| 0 <= i < j < all.len() implies (#[trigger] all[i])@ != (
        #[trigger] all[j])@ by {
            if j < before.len() {
                assert(before[i]@ != before[j]@);
            } else {
                assert(all[i] == before[i]);
            }
        }
    }
}

proof fn lemma_listed_grown(before: Seq<String>, after: Seq<String>, text: Seq<char>)
    requires
        after == before || (after.len() > 0 && after == before.push(after.last())),
    ensures
        listed(after, text) <==> listed(before, text) || (after != before && after.last()@ == text),
{
    if listed(before, text) {
        let i = choose|i: int| 0 <= i < before.len() && (#[trigger] before[i])@ == text;
        assert(after[i] == before[i]);
    }
    if listed(after, text) {
        let i = choose|i: int| 0 <= i < after.len() && (#[trigger] after[i])@ == text;
        if i < before.len() {
            assert(before[i] == after[i]);
        }
    }
    if after != before {
        assert(after[after.len() - 1] == after.last());
    }
}

/// There is an entry like this.
pub open spec fn holds(peers: Seq<NetPeer>, name: Seq<char>, last_shake: Instant, actor: NetPeerRef) -> bool {
    exists|i: int|
        0 <= i < peers.len() && (#[trigger] peers[i]).remote_id@ == name && peers[i].last_shake
            == last_shake && peers[i].actor == actor
}

proof fn lemma_updated(peers: Seq<NetPeer>, i: int, peer: NetPeer, name: Seq<char>)
    requires
        0 <= i < peers.len(),
        name != peers[i].remote_id@,
        peer.remote_id@ == peers[i].remote_id@,
    ensures
        forall|t: Instant, actor: NetPeerRef|
            holds(peers, name, t, actor) <==> #[trigger] holds(peers.update(i, peer), name, t, actor),
{
    let after = peers.update(i, peer);
    assert forall|t: Instant, actor: NetPeerRef|
        holds(peers, name, t, actor) <==> #[trigger] holds(after, name, t, actor) by {
        if holds(peers, name, t, actor) {
            let j = choose|j: int|
                0 <= j < peers.len() && (#[trigger] peers[j]).remote_id@ == name && peers[j].last_shake
                    == t && peers[j].actor == actor;
            assert(after[j] == peers[j]);
        }
        if holds(after, name, t, actor) {
            let j = choose|j: int|
                0 <= j < after.len() && (#[trigger] after[j]).remote_id@ == name && after[j].last_shake
                    == t && after[j].actor == actor;
            assert(after[j] == peers[j]);
        }
    }
}

proof fn lemma_pushed(peers: Seq<NetPeer>, peer: NetPeer, name: Seq<char>)
    requires
        name != peer.remote_id@,
    ensures
        forall|t: Instant, actor: NetPeerRef|
            holds(peers, name, t, actor) <==> #[trigger] holds(peers.push(peer), name, t, actor),
{
    let after = peers.push(peer);
    assert forall|t: Instant, actor: NetPeerRef|
        holds(peers, name, t, actor) <==> #[trigger] holds(after, name, t, actor) by {
        if holds(peers, name, t, actor) {
            let j = choose|j: int|
                0 <= j < peers.len() && (#[trigger] peers[j]).remote_id@ == name && peers[j].last_shake
                    == t && peers[j].actor == actor;
            assert(after[j] == peers[j]);
        }
        if holds(after, name, t, actor) {
            let j = choose|j: int|
                0 <= j < after.len() && (#[trigger] after[j]).remote_id@ == name && after[j].last_shake
                    == t && after[j].actor == actor;
            assert(after[j] == peers[j]);
        }
    }
}

/// When a peer is connected, what was running for it is ended: a hand shake because it has succeeded,
/// another connection because it is replaced. The peer is not known until something runs for it; the
/// other peers stay as they are.
pub proof fn lemma_connection_made(peers: Seq<NetPeer>, name: Seq<char>, i: int)
    requires
        names_distinct(peers),
        0 <= i < peers.len(),
        peers[i].remote_id@ == name,
    ensures
        ({
            let (after, stop) = on_connected(peers, name);
            &&& peers[i].actor matches NetPeerRef::Pending(actor) ==> stop == Some(
                Stop { actor, reason: StopReason::Established },
            )
            &&& peers[i].actor matches NetPeerRef::Actor(actor) ==> stop == Some(
                Stop { actor, reason: StopReason::Replaced },
            )
            &&& peers[i].actor is Added ==> stop is None
            &&& after == peers.take(i) + peers.skip(i + 1)
            &&& forall|j: int| 0 <= j < after.len() ==> (#[trigger] after[j]).remote_id@ != name
        }),
{
    lemma_peer_index(peers, name, peers.len() as int);
    let found = index_of(peers, name)->0;
    assert(found == i) by {
        if found < i {
            assert(peers[found].remote_id@ != peers[i].remote_id@);
        }
        if i < found {
            assert(peers[i].remote_id@ != peers[found].remote_id@);
        }
    }
    let after = on_connected(peers, name).0;
    assert(after =~= peers.take(i) + peers.skip(i + 1));
    assert forall|j: int| 0 <= j < after.len() implies (#[trigger] after[j]).remote_id@ != name by {
        if j < i {
            assert(peers[j].remote_id@ != peers[i].remote_id@);
        } else {
            assert(after[j] == peers[j + 1]);
            assert(peers[i].remote_id@ != peers[j + 1].remote_id@);
        }
    }
}

/// What runs for a peer, once it has been reported, is known under the name of that peer, and nothing
/// else changes.
pub proof fn lemma_actor_known(peers: Seq<NetPeer>, name: String, actor: u64, now: Instant, other: Seq<char>)
    requires
        other != name@,
    ensures
        ({
            let after = with_actor(peers, name, actor, now);
            &&& holds(after, name@, now, NetPeerRef::Actor(actor))
            &&& index_of(peers, name@) is Some ==> after.len() == peers.len()
            &&& index_of(peers, name@) is None ==> after.len() == peers.len() + 1
            &&& forall|t: Instant, running: NetPeerRef|
                holds(peers, other, t, running) <==> #[trigger] holds(after, other, t, running)
        }),
{
    lemma_peer_index(peers, name@, peers.len() as int);
    let peer = NetPeer { remote_id: name, last_shake: now, actor: NetPeerRef::Actor(actor) };
    let after = with_actor(peers, name, actor, now);
    match index_of(peers, name@) {
        Some(i) => {
            assert(after[i] == peer);
            lemma_updated(peers, i, peer, other);
        },
        None => {
            assert(after[peers.len() as int] == peer);
            lemma_pushed(peers, peer, other);
        },
    }
}

/// When a connected peer is lost, what ran for it is ended and it counts as just heard of; a peer that
/// is not connected, or not known, is not affected. All other peers stay as they are.
pub proof fn lemma_connection_lost(peers: Seq<NetPeer>, name: Seq<char>, i: int, now: Instant)
    requires
        names_distinct(peers),
        0 <= i < peers.len(),
    ensures
        ({
            let (after, stop) = on_disconnected(peers, name, now);
            &&& after.len() == peers.len()
            &&& peers[i].remote_id@ != name ==> after[i] == peers[i]
            &&& after[i].remote_id == peers[i].remote_id
            &&& if peers[i].remote_id@ == name && peers[i].actor is Actor {
                &&& stop == Some(
                    Stop { actor: peers[i].actor->Actor_0, reason: StopReason::Disconnected },
                )
                &&& after[i].last_shake == now
                &&& after[i].actor is Added
            } else {
                after[i] == peers[i]
            }
            &&& stop is Some ==> exists|j: int|
                0 <= j < peers.len() && (#[trigger] peers[j]).remote_id@ == name && peers[j].actor
                    == NetPeerRef::Actor((stop->0).actor)
        }),
{
    lemma_peer_index(peers, name, peers.len() as int);
    if let Some(found) = index_of(peers, name) {
        if found < i {
            assert(peers[found].remote_id@ != peers[i].remote_id@);
        }
        if i < found {
            assert(peers[i].remote_id@ != peers[found].remote_id@);
        }
    }
}

/// A hand shake that has been started is known under the name of its peer, which is otherwise as it was;
/// one with an unknown peer is not. All other peers stay as they are.
pub proof fn lemma_shake_known(peers: Seq<NetPeer>, name: Seq<char>, shake: u64, i: int)
    requires
        names_distinct(peers),
        0 <= i < peers.len(),
    ensures
        ({
            let after = with_shake(peers, name, shake);
            &&& after.len() == peers.len()
            &&& after[i].remote_id == peers[i].remote_id
            &&& after[i].last_shake == peers[i].last_shake
            &&& peers[i].remote_id@ == name ==> after[i].actor == NetPeerRef::Pending(shake)
            &&& peers[i].remote_id@ != name ==> after[i].actor == peers[i].actor
        }),
{
    lemma_peer_index(peers, name, peers.len() as int);
    if let Some(found) = index_of(peers, name) {
        if found < i {
            assert(peers[found].remote_id@ != peers[i].remote_id@);
        }
        if i < found {
            assert(peers[i].remote_id@ != peers[found].remote_id@);
        }
    }
}

} // verus!
