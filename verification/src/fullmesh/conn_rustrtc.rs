//! A connection on which every packet is sealed.

use vstd::prelude::*;
use crate::packet::NodeId;
use crate::crypto::LONGEST_PLAINTEXT;
use super::frame::{
    add_to_total, index_of, open_packet, opened_packet, packet_index, seal_packet, sealed_packet, total_after,
    FullMeshKey, COUNTER_LIMIT,
};

verus! {

/// Why a packet was not sent or not received.
#[derive(Clone, Copy, PartialEq, Eq, Structural, Debug)]
pub enum SealError {
    /// The key has sealed as many packets as it may.
    CounterOverflow,
    /// The data is longer than can be sealed.
    TooLong,
    /// The packet was not sealed under the key that it names.
    NotAuthentic,
}

/// The sending end of a connection.
#[derive(Clone, Copy, Debug)]
pub struct ConnectionSender {
    pub id: NodeId,
    pub peer_id: NodeId,
    pub key: FullMeshKey,
    pub counter: u32,
    pub sent: u64,
}

impl ConnectionSender {
    /// The sending end with its first key.
    pub fn new(id: NodeId, peer_id: NodeId, key: FullMeshKey) -> (sender: ConnectionSender)
        ensures
            sender == (ConnectionSender { id, peer_id, key, counter: 0, sent: 0 }),
    {
        ConnectionSender { id, peer_id, key, counter: 0, sent: 0 }
    }

    /// Goes over to another key, under which counting starts anew.
    pub fn set_key(&mut self, key: FullMeshKey)
        ensures
            *final(self) == (ConnectionSender { key, counter: 0, ..*old(self) }),
            *final(self) == old(self).with_key(key),
    {
        self.key = key;
        self.counter = 0;
    }

    /// The packet that carries `data`.
    pub open spec fn packet_with(self, data: Seq<u8>) -> Option<Seq<u8>> {
        sealed_packet(self.key.key, self.id > self.peer_id, self.key.index, self.counter, data)
    }

    /// The sending end after a packet that carries `n` bytes.
    pub open spec fn after_send(self, n: nat) -> ConnectionSender {
        ConnectionSender {
            counter: (self.counter + 1) as u32,
            sent: total_after(self.sent, (n + 16) as int),
            ..self
        }
    }

    /// The sending end with another key.
    pub open spec fn with_key(self, key: FullMeshKey) -> ConnectionSender {
        ConnectionSender { key, counter: 0, ..self }
    }

    /// Seals a packet. Each takes the next counter, and none is sealed at the limit.
    pub fn send(&mut self, data: &[u8]) -> (result: Result<Vec<u8>, SealError>)
        ensures
            result is Ok ==> *final(self) == old(self).after_send(data@.len()),
            match result {
                Ok(packet) => old(self).counter < COUNTER_LIMIT && old(self).packet_with(data@)
                    == Some(packet@) && *final(self) == (ConnectionSender {
                    counter: (old(self).counter + 1) as u32,
                    sent: total_after(old(self).sent, (data@.len() + 16) as int),
                    ..*old(self)
                }),
                Err(_) => *final(self) == *old(self),
            },
            result == Err::<Vec<u8>, _>(SealError::CounterOverflow) <==> old(self).counter
                >= COUNTER_LIMIT,
            result == Err::<Vec<u8>, _>(SealError::TooLong) <==> old(self).counter < COUNTER_LIMIT
                && data@.len() > LONGEST_PLAINTEXT,
            result != Err::<Vec<u8>, _>(SealError::NotAuthentic),
    {
        if self.counter >= COUNTER_LIMIT {
            return Err(SealError::CounterOverflow);
        }
        let upper = self.id > self.peer_id;
        match seal_packet(self.key.key, upper, self.key.index, self.counter, data) {
            Some(packet) => {
                self.counter = self.counter + 1;
                self.sent = add_to_total(self.sent, packet.len() - 4);
                Ok(packet)
            },
            None => Err(SealError::TooLong),
        }
    }
}

/// The receiving end of a connection. It holds a key for each index, so that packets sealed before
/// a change of keys can still be opened after it.
#[derive(Clone, Copy, Debug)]
pub struct ConnectionReceiver {
    pub even: u128,
    pub odd: u128,
    pub received: u64,
}

impl ConnectionReceiver {
    /// The receiving end with its first key, which stands for both indices.
    pub fn new(key: FullMeshKey) -> (receiver: ConnectionReceiver)
        ensures
            receiver == (ConnectionReceiver { even: key.key, odd: key.key, received: 0 }),
    {
        ConnectionReceiver { even: key.key, odd: key.key, received: 0 }
    }

    /// The key with the given index.
    pub open spec fn slot(self, index: bool) -> u128 {
        if index {
            self.odd
        } else {
            self.even
        }
    }

    /// The receiving end with another key.
    pub open spec fn with_key(self, key: FullMeshKey) -> ConnectionReceiver {
        if key.index {
            ConnectionReceiver { odd: key.key, ..self }
        } else {
            ConnectionReceiver { even: key.key, ..self }
        }
    }

    /// Takes another key; the one with the other index stays.
    pub fn set_key(&mut self, key: FullMeshKey)
        ensures
            *final(self) == old(self).with_key(key),
            *final(self) == if key.index {
                (ConnectionReceiver { odd: key.key, ..*old(self) })
            } else {
                (ConnectionReceiver { even: key.key, ..*old(self) })
            },
    {
        if key.index {
            self.odd = key.key;
        } else {
            self.even = key.key;
        }
    }

    /// Opens a packet with the key that its header names. What a sender sealed under that key comes
    /// back.
    pub fn recv(&mut self, packet: &[u8]) -> (result: Result<Vec<u8>, SealError>)
        requires
            packet@.len() >= 4,
        ensures
            *final(self) == (ConnectionReceiver {
                received: total_after(old(self).received, packet@.len() as int),
                ..*old(self)
            }),
            match result {
                Ok(data) => opened_packet(old(self).slot(index_of(packet@)), packet@) == Some(
                    data@,
                ),
                Err(e) => e is NotAuthentic && opened_packet(
                    old(self).slot(index_of(packet@)),
                    packet@,
                ) is None,
            },
            forall|sender: ConnectionSender, data: Seq<u8>|
                (#[trigger] sender.packet_with(data)) == Some(packet@) && sender.counter
                    < COUNTER_LIMIT && old(self).slot(sender.key.index) == sender.key.key ==> (
                result matches Ok(d) && d@ == data),
    {
        let key = if packet_index(packet) {
            self.odd
        } else {
            self.even
        };
        self.received = add_to_total(self.received, packet.len());
        let opened = open_packet(key, packet);
        proof {
            assert forall|sender: ConnectionSender, data: Seq<u8>|
                (#[trigger] sender.packet_with(data)) == Some(packet@) && sender.counter
                    < COUNTER_LIMIT && old(self).slot(sender.key.index)
                    == sender.key.key implies (opened matches Some(d) && d@ == data) by {
                lemma_packet_names_its_key(sender, data);
            }
        }
        match opened {
            Some(data) => Ok(data),
            None => Err(SealError::NotAuthentic),
        }
    }
}

/// A sealed packet names the index of the key under which it is sealed.
pub proof fn lemma_packet_names_its_key(sender: ConnectionSender, data: Seq<u8>)
    requires
        sender.counter < COUNTER_LIMIT,
    ensures
        sender.packet_with(data) matches Some(packet) ==> packet.len() >= 4 && index_of(packet)
            == sender.key.index,
{
    let header = super::frame::be32(
        super::frame::header_of(sender.id > sender.peer_id, sender.key.index, sender.counter),
    );
    if let Some(sealed) = crate::crypto::aes128_gcm_sealed(
        sender.key.key,
        super::frame::nonce_of(header),
        data,
    ) {
        super::frame::lemma_header_read_back(
            sender.id > sender.peer_id,
            sender.key.index,
            sender.counter,
            sealed,
        );
    }
}

/// A sealed packet tells the index of its key, the counter, and which of the two ends has the larger
/// address; it is sealed under the key that was set.
pub proof fn lemma_sealed_as_told(sender: ConnectionSender, data: Seq<u8>)
    requires
        sender.counter < COUNTER_LIMIT,
    ensures
        sender.packet_with(data) matches Some(packet) ==> {
            &&& packet.len() >= 4
            &&& packet[0] / 128 == 1
            &&& (packet[0] / 64 % 2 == 1) == (sender.id > sender.peer_id)
            &&& (packet[0] / 32 % 2 == 1) == sender.key.index
            &&& packet[0] % 32 * 16777216 + packet[1] * 65536 + packet[2] * 256 + packet[3]
                == sender.counter
            &&& crate::crypto::aes128_gcm_sealed(
                sender.key.key,
                super::frame::nonce_of(packet),
                data,
            ) == Some(packet.skip(4))
        },
{
    let upper = sender.id > sender.peer_id;
    super::frame::lemma_header_layout(upper, sender.key.index, sender.counter);
    super::frame::lemma_sealed_layout(
        sender.key.key,
        upper,
        sender.key.index,
        sender.counter,
        data,
    );
    if let Some(packet) = sender.packet_with(data) {
        let header = super::frame::be32(
            super::frame::header_of(upper, sender.key.index, sender.counter),
        );
        assert(packet.take(4)[0] == header[0] && packet.take(4)[1] == header[1] && packet.take(4)[2]
            == header[2] && packet.take(4)[3] == header[3]);
    }
}

/// A receiving end holds one key for each index.
pub proof fn lemma_slots(receiver: ConnectionReceiver)
    ensures
        receiver.slot(true) == receiver.odd,
        receiver.slot(false) == receiver.even,
{
}

/// Each packet takes a counter of its own, and what was sent is counted with sixteen bytes more; a new
/// key starts counting anew and changes nothing else.
pub proof fn lemma_counts_on(sender: ConnectionSender, n: nat, key: FullMeshKey)
    requires
        sender.counter < COUNTER_LIMIT,
    ensures
        sender.after_send(n).counter == sender.counter + 1,
        sender.after_send(n).key == sender.key,
        sender.after_send(n).id == sender.id,
        sender.after_send(n).peer_id == sender.peer_id,
        sender.sent + n + 16 <= u64::MAX ==> sender.after_send(n).sent == sender.sent + n + 16,
        sender.with_key(key).key == key,
        sender.with_key(key).counter == 0,
        sender.with_key(key).sent == sender.sent,
        sender.with_key(key).id == sender.id,
        sender.with_key(key).peer_id == sender.peer_id,
{
}

/// A new key serves for its index, and the key for the other index stays, whatever came before: what was
/// sealed under it can still be opened, and of two keys for one index the last counts.
pub proof fn lemma_receiver_takes_key(
    receiver: ConnectionReceiver,
    key: FullMeshKey,
    later: FullMeshKey,
)
    ensures
        receiver.with_key(key).slot(key.index) == key.key,
        receiver.with_key(key).slot(!key.index) == receiver.slot(!key.index),
        receiver.with_key(key).received == receiver.received,
        key.index == later.index ==> receiver.with_key(key).with_key(later) == receiver.with_key(later),
        key.index != later.index ==> receiver.with_key(key).with_key(later) == receiver.with_key(
            later,
        ).with_key(key),
{
}

} // verus!
