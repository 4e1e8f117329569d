//! A connection on which packets between local addresses may go unsealed.

use vstd::prelude::*;
use crate::addr::{is_local, is_private, SocketAddr};
use crate::crypto::LONGEST_PLAINTEXT;
use crate::packet::NodeId;
use super::frame::{
    add_to_total, be32, counter_of, header_of, index_of, lemma_header_read_back, nonce_of, open_packet,
    opened_packet, packet_counter, packet_index, seal_packet, sealed_packet, total_after,
    FullMeshKey, COUNTER_LIMIT,
};

verus! {

/// Why a packet was not sent.
#[derive(Clone, Copy, PartialEq, Eq, Structural, Debug)]
pub enum SendError {
    /// There is no path to the peer yet.
    NotEstablished,
    /// There is no key yet.
    NoKey,
    /// The key has sealed as many packets as it may.
    CounterOverflow,
    /// The data is longer than can be sealed.
    TooLong,
}

/// Why a packet was not received.
#[derive(Clone, Copy, PartialEq, Eq, Structural, Debug)]
pub enum ReceiveError {
    /// No more packets will come.
    ChannelClosed,
    /// The packet is shorter than a header.
    TooShort,
    /// The packet is not sealed, and should have been.
    Unsealed,
    /// The packet was not sealed under the key that it names.
    NotAuthentic,
}

/// The header of a packet that is not sealed: its counter is zero.
pub open spec fn plain_packet(data: Seq<u8>) -> Seq<u8> {
    seq![0x80u8, 0u8, 0u8, 0u8] + data
}

/// The sending end of a connection.
///
/// A key that is there from the start is not taken up: the first packets are sealed under the key
/// zero, until a key is set. Counting starts at one, also after a change of keys: the counter zero
/// marks packets that are not sealed.
#[derive(Clone, Copy, Debug)]
pub struct ConnectionSender {
    pub id: NodeId,
    pub peer_id: NodeId,
    pub encrypt_local_packets: bool,
    /// The key last set, if any.
    pub key: Option<FullMeshKey>,
    /// Whether it has been set since the last packet.
    pub key_changed: bool,
    /// The key under which packets are sealed.
    pub cipher: u128,
    pub counter: u32,
    pub sent: u64,
}

impl ConnectionSender {
    /// The counter zero is not used for sealed packets.
    pub open spec fn wf(self) -> bool {
        self.counter >= 1
    }

    /// The sending end; `key` is the key that was set before, if any.
    pub fn new(
        id: NodeId,
        peer_id: NodeId,
        encrypt_local_packets: bool,
        key: Option<FullMeshKey>,
    ) -> (sender: ConnectionSender)
        ensures
            sender.wf(),
            sender.id == id,
            sender.peer_id == peer_id,
            sender.encrypt_local_packets == encrypt_local_packets,
            sender.key == key,
            !sender.key_changed,
            sender.cipher == 0,
            sender.counter == 1,
            sender.sent == 0,
    {
        ConnectionSender {
            id,
            peer_id,
            encrypt_local_packets,
            key,
            key_changed: false,
            cipher: 0,
            counter: 1,
            sent: 0,
        }
    }

    /// Sets the key.
    pub fn set_key(&mut self, key: FullMeshKey)
        ensures
            *final(self) == (ConnectionSender { key: Some(key), key_changed: true, ..*old(self) }),
    {
        self.key = Some(key);
        self.key_changed = true;
    }

    /// The sending end once it has taken up a key that was set.
    pub open spec fn refreshed(self) -> ConnectionSender {
        match self.key {
            Some(key) if self.key_changed => ConnectionSender {
                key_changed: false,
                cipher: key.key,
                counter: 1,
                ..self
            },
            _ => self,
        }
    }

    /// The sending end after a packet to `remote` that carries `n` bytes.
    pub open spec fn after_send(self, n: nat, remote: SocketAddr) -> ConnectionSender {
        let taken_up = self.refreshed();
        if self.seals(remote) {
            ConnectionSender {
                counter: (taken_up.counter + 1) as u32,
                sent: total_after(self.sent, (n + 16) as int),
                ..taken_up
            }
        } else {
            ConnectionSender { sent: total_after(self.sent, n as int), ..taken_up }
        }
    }

    /// Packets to `remote` are sealed.
    pub open spec fn seals(self, remote: SocketAddr) -> bool {
        self.encrypt_local_packets || !is_local(remote.ip)
    }

    /// The sealed packet that carries `data`.
    pub open spec fn packet_with(self, data: Seq<u8>) -> Option<Seq<u8>> {
        sealed_packet(
            self.cipher,
            self.id > self.peer_id,
            self.key->0.index,
            self.counter,
            data,
        )
    }

    /// The error with which sending fails, if it does.
    pub open spec fn send_error(self, data: Seq<u8>, remote: Option<SocketAddr>) -> Option<
        SendError,
    > {
        match remote {
            None => Some(SendError::NotEstablished),
            Some(remote) => if self.key is None {
                Some(SendError::NoKey)
            } else if !self.seals(remote) {
                None
            } else if self.refreshed().counter >= COUNTER_LIMIT {
                Some(SendError::CounterOverflow)
            } else if data.len() > LONGEST_PLAINTEXT {
                Some(SendError::TooLong)
            } else {
                None
            },
        }
    }

    /// Frames a packet for `remote`, the address of the peer, if there is a path to it. The counter in
    /// its header is zero if and only if it is not sealed.
    pub fn send(&mut self, data: &[u8], remote: Option<SocketAddr>) -> (result: Result<
        Vec<u8>,
        SendError,
    >)
        requires
            old(self).wf(),
        ensures
            final(self).wf(),
            result matches Ok(packet) ==> packet@.len() >= 4 && (counter_of(packet@) != 0
                <==> old(self).seals(remote->0)),
            result is Ok ==> *final(self) == old(self).after_send(data@.len(), remote->0),
            match result {
                Ok(packet) => old(self).send_error(data@, remote) is None && if old(self).seals(
                    remote->0,
                ) {
                    &&& old(self).refreshed().packet_with(data@) == Some(packet@)
                    &&& *final(self) == (ConnectionSender {
                        counter: (old(self).refreshed().counter + 1) as u32,
                        sent: total_after(old(self).sent, (data@.len() + 16) as int),
                        ..old(self).refreshed()
                    })
                } else {
                    &&& packet@ == plain_packet(data@)
                    &&& *final(self) == (ConnectionSender {
                        sent: total_after(old(self).sent, data@.len() as int),
                        ..old(self).refreshed()
                    })
                },
                Err(e) => old(self).send_error(data@, remote) == Some(e) && *final(self)
                    == if e is NotEstablished {
                    *old(self)
                } else {
                    old(self).refreshed()
                },
            },
    {
        let remote = match remote {
            Some(remote) => remote,
            None => {
                return Err(SendError::NotEstablished);
            },
        };
        let key = match self.key {
            Some(key) => key,
            None => {
                return Err(SendError::NoKey);
            },
        };
        if self.key_changed {
            self.key_changed = false;
            self.cipher = key.key;
            self.counter = 1;
        }
        if self.encrypt_local_packets || !is_private(&remote) {
            if self.counter >= COUNTER_LIMIT {
                return Err(SendError::CounterOverflow);
            }
            let upper = self.id > self.peer_id;
            let ghost sender = *self;
            match seal_packet(self.cipher, upper, key.index, self.counter, data) {
                Some(packet) => {
                    proof {
                        lemma_packet_header(sender, data@);
                    }
                    self.counter = self.counter + 1;
                    self.sent = add_to_total(self.sent, packet.len() - 4);
                    Ok(packet)
                },
                None => Err(SendError::TooLong),
            }
        } else {
            let mut packet: Vec<u8> = Vec::new();
            packet.push(0x80);
            packet.push(0);
            packet.push(0);
            packet.push(0);
            packet.extend_from_slice(data);
            assert(packet@ =~= plain_packet(data@));
            self.sent = add_to_total(self.sent, data.len());
            Ok(packet)
        }
    }
}

/// The receiving end of a connection. It holds a key for each index; both are zero at first, also
/// where a key was set before.
#[derive(Clone, Copy, Debug)]
pub struct ConnectionReceiver {
    pub encrypt_local_packets: bool,
    /// The key last set, if it has not been taken up yet.
    pub pending: Option<FullMeshKey>,
    pub even: u128,
    pub odd: u128,
    pub received: u64,
}

impl ConnectionReceiver {
    /// The receiving end.
    pub fn new(encrypt_local_packets: bool) -> (receiver: ConnectionReceiver)
        ensures
            receiver.encrypt_local_packets == encrypt_local_packets,
            receiver.pending is None,
            receiver.even == 0,
            receiver.odd == 0,
            receiver.received == 0,
    {
        ConnectionReceiver { encrypt_local_packets, pending: None, even: 0, odd: 0, received: 0 }
    }

    /// The key with the given index.
    pub open spec fn slot(self, index: bool) -> u128 {
        if index {
            self.odd
        } else {
            self.even
        }
    }

    /// Sets a key. Of two keys that are set before one is taken up, the later one counts.
    pub fn set_key(&mut self, key: FullMeshKey)
        ensures
            *final(self) == (ConnectionReceiver { pending: Some(key), ..*old(self) }),
    {
        self.pending = Some(key);
    }

    /// The receiving end once it has taken up a key that was set.
    pub open spec fn refreshed(self) -> ConnectionReceiver {
        match self.pending {
            Some(key) => if key.index {
                ConnectionReceiver { pending: None, odd: key.key, ..self }
            } else {
                ConnectionReceiver { pending: None, even: key.key, ..self }
            },
            None => self,
        }
    }

    /// Takes up a key that was set. This is done before each wait for a packet.
    pub fn refresh(&mut self)
        ensures
            *final(self) == old(self).refreshed(),
    {
        match self.pending {
            Some(key) => {
                self.pending = None;
                if key.index {
                    self.odd = key.key;
                } else {
                    self.even = key.key;
                }
            },
            None => {},
        }
    }

    /// The data of a packet, or why there is none.
    pub open spec fn data_of(self, packet: Seq<u8>, addr: SocketAddr) -> Result<
        Seq<u8>,
        ReceiveError,
    > {
        if packet.len() < 4 {
            Err(ReceiveError::TooShort)
        } else if counter_of(packet) == 0 {
            if self.encrypt_local_packets || !is_local(addr.ip) {
                Err(ReceiveError::Unsealed)
            } else {
                Ok(packet.skip(4))
            }
        } else {
            match opened_packet(self.slot(index_of(packet)), packet) {
                Some(data) => Ok(data),
                None => Err(ReceiveError::NotAuthentic),
            }
        }
    }

    /// Reads a packet that came from `addr`; without one, the connection is gone.
    ///
    /// What a sender sealed under the key with the index that it names comes back, and so does what a
    /// sender sent unsealed, where that is allowed.
    pub fn recv(&mut self, packet: Option<(&[u8], SocketAddr)>) -> (result: Result<
        Vec<u8>,
        ReceiveError,
    >)
        ensures
            match packet {
                None => result == Err::<Vec<u8>, _>(ReceiveError::ChannelClosed) && *final(self)
                    == *old(self),
                Some((packet, addr)) => {
                    &&& match result {
                        Ok(data) => old(self).data_of(packet@, addr) == Ok::<Seq<u8>, ReceiveError>(
                            data@,
                        ),
                        Err(e) => old(self).data_of(packet@, addr) == Err::<Seq<u8>, _>(e),
                    }
                    &&& *final(self) == if packet@.len() < 4 {
                        *old(self)
                    } else {
                        ConnectionReceiver {
                            received: total_after(old(self).received, packet@.len() as int),
                            ..*old(self)
                        }
                    }
                },
            },
            packet matches Some((packet, addr)) ==> forall|sender: ConnectionSender, data: Seq<u8>|
                (#[trigger] sender.packet_with(data)) == Some(packet@) && sender.wf() && sender.counter
                    < COUNTER_LIMIT && old(self).slot(sender.key->0.index) == sender.cipher ==> (
                result matches Ok(d) && d@ == data),
            packet matches Some((packet, addr)) ==> forall|data: Seq<u8>|
                packet@ == #[trigger] plain_packet(data) && !old(self).encrypt_local_packets
                    && is_local(addr.ip) ==> (result matches Ok(d) && d@ == data),
    {
        let (packet, addr) = match packet {
            Some(packet) => packet,
            None => {
                return Err(ReceiveError::ChannelClosed);
            },
        };
        proof {
            assert forall|sender: ConnectionSender, data: Seq<u8>|
                (#[trigger] sender.packet_with(data)) == Some(packet@) && sender.counter
                    < COUNTER_LIMIT implies packet@.len() >= 4 && index_of(packet@)
                == sender.key->0.index && counter_of(packet@) == sender.counter by {
                lemma_packet_header(sender, data);
            }
            assert forall|data: Seq<u8>| packet@ == #[trigger] plain_packet(data) implies packet@.len()
                >= 4 && counter_of(packet@) == 0 && packet@.skip(4) == data by {
                assert(packet@.skip(4) =~= data);
            }
        }
        if packet.len() < 4 {
            return Err(ReceiveError::TooShort);
        }
        self.received = add_to_total(self.received, packet.len());
        if packet_counter(packet) == 0 {
            if self.encrypt_local_packets || !is_private(&addr) {
                return Err(ReceiveError::Unsealed);
            }
            let body = vstd::slice::slice_subrange(packet, 4, packet.len());
            let data = vstd::slice::slice_to_vec(body);
            assert(data@ =~= packet@.skip(4));
            return Ok(data);
        }
        let key = if packet_index(packet) {
            self.odd
        } else {
            self.even
        };
        match open_packet(key, packet) {
            Some(data) => Ok(data),
            None => Err(ReceiveError::NotAuthentic),
        }
    }
}

/// The header of a sealed packet tells the index of its key and its counter.
pub proof fn lemma_packet_header(sender: ConnectionSender, data: Seq<u8>)
    requires
        sender.counter < COUNTER_LIMIT,
    ensures
        sender.packet_with(data) matches Some(packet) ==> packet.len() >= 4 && index_of(packet)
            == sender.key->0.index && counter_of(packet) == sender.counter,
{
    let upper = sender.id > sender.peer_id;
    let index = sender.key->0.index;
    let header = be32(header_of(upper, index, sender.counter));
    if let Some(sealed) = crate::crypto::aes128_gcm_sealed(
        sender.cipher,
        nonce_of(header),
        data,
    ) {
        lemma_header_read_back(upper, index, sender.counter, sealed);
    }
}

/// A key that has been set and taken up serves for its index; the key for the other index stays, so
/// that what was sealed under it can still be opened.
pub proof fn lemma_other_key_stays(receiver: ConnectionReceiver, key: FullMeshKey)
    ensures
        ({
            let after = (ConnectionReceiver { pending: Some(key), ..receiver }).refreshed();
            after.slot(key.index) == key.key && after.slot(!key.index) == receiver.slot(!key.index)
        }),
{
}

/// A sending end that has been given a key seals the next packet under it and counts from one again;
/// one that has not goes on as before.
pub proof fn lemma_key_taken_up(sender: ConnectionSender, key: FullMeshKey)
    ensures
        ({
            let told = ConnectionSender { key: Some(key), key_changed: true, ..sender };
            let after = told.refreshed();
            &&& after.cipher == key.key
            &&& after.counter == 1
            &&& after.key == Some(key)
            &&& after.refreshed() == after
            &&& after == (ConnectionSender {
                key: Some(key),
                key_changed: false,
                cipher: key.key,
                counter: 1,
                ..sender
            })
            &&& !sender.key_changed ==> sender.refreshed() == sender
        }),
{
}

/// Packets go unsealed only where that is allowed, and then only to local addresses.
pub proof fn lemma_sealed_unless_local(sender: ConnectionSender, remote: SocketAddr)
    ensures
        sender.encrypt_local_packets ==> sender.seals(remote),
        !is_local(remote.ip) ==> sender.seals(remote),
        !sender.encrypt_local_packets && is_local(remote.ip) ==> !sender.seals(remote),
{
}

/// A packet is sent if and only if there is a path and a key, and, where it has to be sealed, the key
/// has not sealed as many packets as it may and the data is not too long.
pub proof fn lemma_sending_succeeds(
    sender: ConnectionSender,
    data: Seq<u8>,
    remote: Option<SocketAddr>,
)
    ensures
        sender.send_error(data, remote) is None <==> {
            &&& remote is Some
            &&& sender.key is Some
            &&& sender.seals(remote->0) ==> data.len() <= LONGEST_PLAINTEXT && (sender.key_changed
                || sender.counter < 536870911)
        },
        remote is None ==> sender.send_error(data, remote) == Some(SendError::NotEstablished),
        remote is Some && sender.key is None ==> sender.send_error(data, remote) == Some(
            SendError::NoKey,
        ),
        remote is Some && sender.key is Some && sender.seals(remote->0) && !sender.key_changed
            && sender.counter >= 536870911 ==> sender.send_error(data, remote) == Some(
            SendError::CounterOverflow,
        ),
{
}

/// A sealed packet is sealed under the key that was taken up, and its header tells the index of the key
/// last set, the counter, and which of the two ends has the larger address.
pub proof fn lemma_sealed_as_told(sender: ConnectionSender, data: Seq<u8>)
    requires
        sender.counter < COUNTER_LIMIT,
        sender.key is Some,
    ensures
        sender.packet_with(data) matches Some(packet) ==> {
            &&& packet.len() >= 4
            &&& packet[0] / 128 == 1
            &&& (packet[0] / 64 % 2 == 1) == (sender.id > sender.peer_id)
            &&& (packet[0] / 32 % 2 == 1) == sender.key->0.index
            &&& packet[0] % 32 * 16777216 + packet[1] * 65536 + packet[2] * 256 + packet[3]
                == sender.counter
            &&& crate::crypto::aes128_gcm_sealed(sender.cipher, nonce_of(packet), data) == Some(
                packet.skip(4),
            )
        },
{
    let upper = sender.id > sender.peer_id;
    let index = sender.key->0.index;
    super::frame::lemma_header_layout(upper, index, sender.counter);
    super::frame::lemma_sealed_layout(sender.cipher, upper, index, sender.counter, data);
    if let Some(packet) = sender.packet_with(data) {
        let header = be32(header_of(upper, index, sender.counter));
        assert(packet.take(4)[0] == header[0] && packet.take(4)[1] == header[1] && packet.take(4)[2]
            == header[2] && packet.take(4)[3] == header[3]);
    }
}

/// The two ends of a connection never seal with the same nonce, and neither does one end under two
/// counters.
pub proof fn lemma_ends_share_no_nonce(
    a: ConnectionSender,
    b: ConnectionSender,
    data: Seq<u8>,
    other: Seq<u8>,
)
    requires
        a.counter < COUNTER_LIMIT,
        b.counter < COUNTER_LIMIT,
        a.key is Some,
        b.key is Some,
        a.packet_with(data) is Some,
        b.packet_with(other) is Some,
        (a.id == b.peer_id && a.peer_id == b.id && a.id != a.peer_id) || (a.id == b.id && a.peer_id
            == b.peer_id && a.counter != b.counter),
    ensures
        nonce_of(a.packet_with(data)->0) != nonce_of(b.packet_with(other)->0),
{
    lemma_sealed_as_told(a, data);
    lemma_sealed_as_told(b, other);
    let p = a.packet_with(data)->0;
    let q = b.packet_with(other)->0;
    if nonce_of(p) == nonce_of(q) {
        assert(nonce_of(p)[8] == nonce_of(q)[8] && nonce_of(p)[9] == nonce_of(q)[9]
            && nonce_of(p)[10] == nonce_of(q)[10] && nonce_of(p)[11] == nonce_of(q)[11]);
    }
}

/// A packet that is not sealed is a header with the counter zero and the data.
pub proof fn lemma_plain_layout(data: Seq<u8>)
    ensures
        plain_packet(data).len() == data.len() + 4,
        plain_packet(data)[0] == 128,
        counter_of(plain_packet(data)) == 0,
        plain_packet(data).skip(4) == data,
{
    assert(plain_packet(data).skip(4) =~= data);
}

/// What is received: a packet without a header is too short; one with the counter zero is taken as it is
/// where packets may go unsealed and it comes from a local address, and refused otherwise; any other is
/// opened under the key that its header names.
pub proof fn lemma_packets_read(receiver: ConnectionReceiver, packet: Seq<u8>, addr: SocketAddr)
    requires
        packet.len() >= 4,
    ensures
        ({
            let unsealed = packet[0] % 32 == 0 && packet[1] == 0 && packet[2] == 0 && packet[3] == 0;
            let key = if packet[0] / 32 % 2 == 1 {
                receiver.odd
            } else {
                receiver.even
            };
            let data = receiver.data_of(packet, addr);
            &&& unsealed && !receiver.encrypt_local_packets && is_local(addr.ip) ==> data == Ok::<
                _,
                ReceiveError,
            >(packet.skip(4))
            &&& unsealed && (receiver.encrypt_local_packets || !is_local(addr.ip)) ==> data == Err::<
                Seq<u8>,
                _,
            >(ReceiveError::Unsealed)
            &&& !unsealed ==> match opened_packet(key, packet) {
                Some(opened) => data == Ok::<_, ReceiveError>(opened),
                None => data == Err::<Seq<u8>, _>(ReceiveError::NotAuthentic),
            }
        }),
{
}

/// What is shorter than a header is refused.
pub proof fn lemma_short_packets_refused(
    receiver: ConnectionReceiver,
    packet: Seq<u8>,
    addr: SocketAddr,
)
    requires
        packet.len() < 4,
    ensures
        receiver.data_of(packet, addr) == Err::<Seq<u8>, _>(ReceiveError::TooShort),
{
}

/// A key that was set is taken up for its index; without one the receiving end stays as it is.
pub proof fn lemma_receiver_takes_key(receiver: ConnectionReceiver)
    ensures
        receiver.pending is None ==> receiver.refreshed() == receiver,
        receiver.pending matches Some(key) ==> receiver.refreshed() == (ConnectionReceiver {
            pending: None,
            even: if key.index {
                receiver.even
            } else {
                key.key
            },
            odd: if key.index {
                key.key
            } else {
                receiver.odd
            },
            ..receiver
        }),
        receiver.slot(true) == receiver.odd,
        receiver.slot(false) == receiver.even,
{
}

/// A packet that was sealed takes a counter of its own: the next one has another nonce, whatever either
/// carries. One that went unsealed takes none. What was sent is counted, with sixteen bytes more where it
/// was sealed, and nothing else changes.
pub proof fn lemma_counts_on(
    sender: ConnectionSender,
    remote: SocketAddr,
    data: Seq<u8>,
    other: Seq<u8>,
)
    requires
        sender.wf(),
        sender.key is Some,
        sender.refreshed().counter + 1 < COUNTER_LIMIT,
    ensures
        ({
            let first = sender.refreshed();
            let next = sender.after_send(data.len(), remote);
            &&& next.refreshed() == next
            &&& next.key == first.key && next.cipher == first.cipher
            &&& next.id == sender.id && next.peer_id == sender.peer_id
            &&& next.encrypt_local_packets == sender.encrypt_local_packets
            &&& sender.seals(remote) ==> next.counter == first.counter + 1
            &&& !sender.seals(remote) ==> next.counter == first.counter
            &&& sender.seals(remote) && sender.sent + data.len() + 16 <= u64::MAX ==> next.sent
                == sender.sent + data.len() + 16
            &&& !sender.seals(remote) && sender.sent + data.len() <= u64::MAX ==> next.sent
                == sender.sent + data.len()
            &&& sender.seals(remote) && first.packet_with(data) is Some && next.packet_with(other) is Some
                ==> nonce_of(first.packet_with(data)->0) != nonce_of(next.packet_with(other)->0)
        }),
{
    let first = sender.refreshed();
    let next = sender.after_send(data.len(), remote);
    if sender.seals(remote) && first.packet_with(data) is Some && next.packet_with(other) is Some {
        lemma_ends_share_no_nonce(first, next, data, other);
    }
}

} // verus!
