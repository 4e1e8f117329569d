//! The hand shake between two named peers.

use vstd::prelude::*;
use vstd::string::*;
use vstd::utf8::encode_utf8;

verus! {

/// What can go wrong between named peers.
#[derive(Clone, Copy, PartialEq, Eq, Structural, Debug)]
pub enum ShakeError {
    /// The other end did not keep to the protocol.
    Connection,
    /// Two peers have the same name.
    SameId,
    /// The other end has another token.
    Token,
}

impl ShakeError {
    /// What went wrong, as text, where `peer` is the other end.
    pub open spec fn text(self, peer: Seq<char>) -> Seq<char> {
        match self {
            ShakeError::Connection => "connection error"@,
            ShakeError::SameId => "same id exists in network"@,
            ShakeError::Token => "failed to verify token: "@ + peer,
        }
    }

    /// What went wrong, as text, where `peer` is the other end.
    pub fn message(&self, peer: &str) -> (text: String)
        ensures
            text@ == self.text(peer@),
    {
        match self {
            ShakeError::Connection => "connection error".to_owned(),
            ShakeError::SameId => "same id exists in network".to_owned(),
            ShakeError::Token => {
                let mut text = "failed to verify token: ".to_owned();
                text.append(peer);
                text
            },
        }
    }
}

/// The first index at which two runs of bytes differ.
pub open spec fn first_difference(a: Seq<u8>, b: Seq<u8>, from: int) -> Option<int>
    decreases a.len() - from,
{
    if from < 0 || from >= a.len() || from >= b.len() {
        None
    } else if a[from] != b[from] {
        Some(from)
    } else {
        first_difference(a, b, from + 1)
    }
}

/// Whether the peer with the name `a` is the master of the one with the name `b`: where its name is
/// longer, or the larger one at the first byte in which they differ. A name that the other one begins
/// with is not the master.
pub open spec fn master_of(a: Seq<u8>, b: Seq<u8>) -> Result<bool, ShakeError> {
    if a.len() > b.len() {
        Ok(true)
    } else {
        match first_difference(a, b, 0) {
            Some(i) => Ok(a[i] > b[i]),
            None => if a.len() < b.len() {
                Ok(false)
            } else {
                Err(ShakeError::SameId)
            },
        }
    }
}

/// Whether this peer is the master of a hand shake. There is none between peers with the same name,
/// and only between these.
pub fn is_master(id: &String, remote_id: &String) -> (result: Result<bool, ShakeError>)
    ensures
        result == Err::<bool, _>(ShakeError::SameId) <==> id@ == remote_id@,
        result == master_of(encode_utf8(id@), encode_utf8(remote_id@)),
{
    let a = id.as_str().as_bytes();
    let b = remote_id.as_str().as_bytes();
    proof {
        lemma_same_id(a@, b@);
        vstd::utf8::encode_utf8_decode_utf8(id@);
        vstd::utf8::encode_utf8_decode_utf8(remote_id@);
    }
    if a.len() > b.len() {
        return Ok(true);
    }
    let mut i: usize = 0;
    while i < a.len()
        invariant
            i <= a.len() <= b.len(),
            a@ == encode_utf8(id@),
            b@ == encode_utf8(remote_id@),
            master_of(a@, b@) == Err::<bool, _>(ShakeError::SameId) <==> id@ == remote_id@,
            first_difference(a@, b@, 0) == first_difference(a@, b@, i as int),
        decreases a.len() - i,
    {
        if a[i] != b[i] {
            return Ok(a[i] > b[i]);
        }
        i += 1;
    }
    if a.len() < b.len() {
        return Ok(false);
    }
    Err(ShakeError::SameId)
}

/// Only the same names are the same.
proof fn lemma_same_id(a: Seq<u8>, b: Seq<u8>)
    ensures
        master_of(a, b) == Err::<bool, _>(ShakeError::SameId) <==> a == b,
{
    if a.len() == b.len() {
        lemma_first_difference(a, b, 0);
        if first_difference(a, b, 0) is None {
            assert(a =~= b);
        }
    }
}

proof fn lemma_first_difference(a: Seq<u8>, b: Seq<u8>, from: int)
    requires
        a.len() == b.len(),
        0 <= from <= a.len(),
    ensures
        first_difference(a, b, from) == first_difference(b, a, from),
        match first_difference(a, b, from) {
            Some(i) => from <= i < a.len() && a[i] != b[i],
            None => forall|i: int| from <= i < a.len() ==> a[i] == b[i],
        },
    decreases a.len() - from,
{
    if from < a.len() && a[from] == b[from] {
        lemma_first_difference(a, b, from + 1);
    }
}

/// `a` is the smaller one at the first byte in which the two differ, if there is one.
pub open spec fn is_smaller(a: Seq<u8>, b: Seq<u8>) -> bool {
    first_difference(a, b, 0) matches Some(i) ==> a[i] < b[i]
}

/// Of two peers with different names exactly one is the master; peers with the same name are told so.
/// A shorter name has to be the smaller one, too, or what the other one begins with.
pub proof fn lemma_one_master(a: Seq<u8>, b: Seq<u8>)
    requires
        a.len() < b.len() ==> is_smaller(a, b),
        b.len() < a.len() ==> is_smaller(b, a),
    ensures
        a == b ==> master_of(a, b) == Err::<bool, _>(ShakeError::SameId),
        a != b ==> (master_of(a, b) matches Ok(x) && master_of(b, a) == Ok::<_, ShakeError>(!x)),
{
    if a.len() == b.len() {
        lemma_first_difference(a, b, 0);
        if a != b && first_difference(a, b, 0) is None {
            assert(a =~= b);
        }
    }
}

/// A channel to the other end, known by a number.
pub type ChannelId = u64;

/// A hand shake. The master makes two channels and a description of its end; the other end gets the
/// channels and answers the description.
pub struct RTCShakeActorState {
    pub remote_id: String,
    pub master: bool,
    /// Whether the connection is still held here.
    pub rtc: bool,
    pub local_desc: Option<String>,
    pub remote_desc_set: bool,
    pub signal_channel: Option<ChannelId>,
    pub data_channel: Option<ChannelId>,
}

/// The connection to a peer, with its two channels.
#[derive(Clone, Copy, PartialEq, Eq, Structural, Debug)]
pub struct Peer {
    pub signal: ChannelId,
    pub data: ChannelId,
}

impl Peer {
    /// The connection with these channels.
    pub fn new(signal: ChannelId, data: ChannelId) -> (peer: Peer)
        ensures
            peer == (Peer { signal, data }),
    {
        Peer { signal, data }
    }
}

/// What is to be done with the description of the other end.
#[derive(Clone, Copy, PartialEq, Eq, Structural, Debug)]
pub enum DescStep {
    /// Nothing: there is one already.
    Ignore,
    /// Take it.
    Take,
    /// Take it, and answer it.
    TakeAndAnswer,
}

impl RTCShakeActorState {
    /// A hand shake. The master has its channels and its description.
    pub fn new(
        remote_id: String,
        master: bool,
        local_desc: Option<String>,
        signal_channel: Option<ChannelId>,
        data_channel: Option<ChannelId>,
    ) -> (state: RTCShakeActorState)
        ensures
            state == (RTCShakeActorState {
                remote_id,
                master,
                rtc: true,
                local_desc,
                remote_desc_set: false,
                signal_channel,
                data_channel,
            }),
    {
        RTCShakeActorState {
            remote_id,
            master,
            rtc: true,
            local_desc,
            remote_desc_set: false,
            signal_channel,
            data_channel,
        }
    }

    /// The description of this end, if there is one yet.
    pub fn get_desc(&self) -> (desc: Option<String>)
        ensures
            desc == self.local_desc,
    {
        match &self.local_desc {
            Some(desc) => Some(desc.clone()),
            None => None,
        }
    }

    /// What is to be done with the description of the other end. What came of it is reported with
    /// [`RTCShakeActorState::desc_taken`].
    pub fn put_desc(&self) -> (step: DescStep)
        ensures
            step == self.desc_step(),
            step == if self.remote_desc_set {
                DescStep::Ignore
            } else if self.master {
                DescStep::Take
            } else {
                DescStep::TakeAndAnswer
            },
    {
        if self.remote_desc_set {
            DescStep::Ignore
        } else if self.master {
            DescStep::Take
        } else {
            DescStep::TakeAndAnswer
        }
    }

    /// The description of the other end has been taken, and where this end is not the master, been
    /// answered with `answer`.
    pub fn desc_taken(&mut self, answer: Option<String>)
        ensures
            *final(self) == old(self).after_desc(answer),
            *final(self) == (RTCShakeActorState {
                remote_desc_set: true,
                local_desc: if old(self).master {
                    old(self).local_desc
                } else {
                    answer
                },
                ..*old(self)
            }),
    {
        if !self.master {
            self.local_desc = answer;
        }
        self.remote_desc_set = true;
    }

    /// The connection is up. The master hands it on; the other end waits for the channels.
    pub fn connected(&mut self) -> (result: Option<Peer>)
        requires
            old(self).master ==> old(self).rtc && old(self).signal_channel is Some && old(
                self).data_channel is Some,
        ensures
            *final(self) == if old(self).master {
                old(self).handed_on()
            } else {
                *old(self)
            },
            if old(self).master {
                &&& result == Some(
                    Peer {
                        signal: old(self).signal_channel->0,
                        data: old(self).data_channel->0,
                    },
                )
                &&& *final(self) == (RTCShakeActorState {
                    rtc: false,
                    signal_channel: None,
                    data_channel: None,
                    ..*old(self)
                })
            } else {
                result is None && *final(self) == *old(self)
            },
    {
        if self.master {
            match (self.signal_channel, self.data_channel) {
                (Some(signal), Some(data)) => {
                    self.rtc = false;
                    self.signal_channel = None;
                    self.data_channel = None;
                    Some(Peer::new(signal, data))
                },
                _ => None,
            }
        } else {
            None
        }
    }

    /// The hand shake with one channel more, if its label is one of the two.
    pub open spec fn with_channel(self, label: Seq<char>, channel: ChannelId) -> Result<
        RTCShakeActorState,
        ShakeError,
    > {
        if label == "shake"@ {
            Ok(RTCShakeActorState { signal_channel: Some(channel), ..self })
        } else if label == "data"@ {
            Ok(RTCShakeActorState { data_channel: Some(channel), ..self })
        } else {
            Err(ShakeError::Connection)
        }
    }

    /// The hand shake after its connection has been handed on.
    pub open spec fn handed_on(self) -> RTCShakeActorState {
        RTCShakeActorState { rtc: false, signal_channel: None, data_channel: None, ..self }
    }

    /// What follows when the other end has made a channel.
    pub open spec fn after_channel(self, label: Seq<char>, channel: ChannelId) -> (
        RTCShakeActorState,
        Result<Option<Peer>, ShakeError>,
    ) {
        match self.with_channel(label, channel) {
            Err(e) => (self, Err(e)),
            Ok(state) => match (state.signal_channel, state.data_channel) {
                (Some(signal), Some(data)) => (state.handed_on(), Ok(Some(Peer { signal, data }))),
                _ => (state, Ok(None)),
            },
        }
    }

    /// The hand shake once the description of the other end has been taken.
    pub open spec fn after_desc(self, answer: Option<String>) -> RTCShakeActorState {
        RTCShakeActorState {
            remote_desc_set: true,
            local_desc: if self.master {
                self.local_desc
            } else {
                answer
            },
            ..self
        }
    }

    /// What is to be done with the description of the other end.
    pub open spec fn desc_step(self) -> DescStep {
        if self.remote_desc_set {
            DescStep::Ignore
        } else if self.master {
            DescStep::Take
        } else {
            DescStep::TakeAndAnswer
        }
    }

    /// The other end has made a channel. Once both are there the connection is handed on.
    pub fn on_channel(&mut self, label: &String, channel: ChannelId) -> (result: Result<
        Option<Peer>,
        ShakeError,
    >)
        requires
            old(self).rtc,
        ensures
            (*final(self), result) == old(self).after_channel(label@, channel),
            match old(self).with_channel(label@, channel) {
                Err(e) => result == Err::<Option<Peer>, _>(e) && *final(self) == *old(self),
                Ok(state) => match (state.signal_channel, state.data_channel) {
                    (Some(signal), Some(data)) => {
                        &&& result == Ok::<_, ShakeError>(Some(Peer { signal, data }))
                        &&& *final(self) == (RTCShakeActorState {
                            rtc: false,
                            signal_channel: None,
                            data_channel: None,
                            ..state
                        })
                    },
                    _ => result == Ok::<Option<Peer>, ShakeError>(None) && *final(self) == state,
                },
            },
    {
        if *label == "shake".to_owned() {
            self.signal_channel = Some(channel);
        } else if *label == "data".to_owned() {
            self.data_channel = Some(channel);
        } else {
            return Err(ShakeError::Connection);
        }
        match (self.signal_channel, self.data_channel) {
            (Some(signal), Some(data)) => {
                self.rtc = false;
                self.signal_channel = None;
                self.data_channel = None;
                Ok(Some(Peer::new(signal, data)))
            },
            _ => Ok(None),
        }
    }
}

/// What two peers tell each other over a server.
pub enum WSPacket {
    Init { id: String, token: String },
    Offer(String),
    Answer(String),
}

/// The name that the other end gives with its first packet.
pub open spec fn init_of(packet: Option<WSPacket>, token: Seq<char>) -> Result<String, ShakeError> {
    match packet {
        Some(WSPacket::Init { id, token: given }) => if given@ == token {
            Ok(id)
        } else {
            Err(ShakeError::Token)
        },
        _ => Err(ShakeError::Connection),
    }
}

/// The description with which an offer is made.
pub open spec fn offer_of(packet: Option<WSPacket>) -> Result<String, ShakeError> {
    match packet {
        Some(WSPacket::Offer(desc)) => Ok(desc),
        _ => Err(ShakeError::Connection),
    }
}

/// The description with which an offer is answered.
pub open spec fn answer_of(packet: Option<WSPacket>) -> Result<String, ShakeError> {
    match packet {
        Some(WSPacket::Answer(desc)) => Ok(desc),
        _ => Err(ShakeError::Connection),
    }
}

/// Decides on the first packet of the other end, and gives its name.
pub fn check_init(packet: Option<WSPacket>, token: &String) -> (result: Result<String, ShakeError>)
    ensures
        result == init_of(packet, token@),
        result == match packet {
            Some(WSPacket::Init { id, token: given }) => if given@ == token@ {
                Ok(id)
            } else {
                Err(ShakeError::Token)
            },
            _ => Err(ShakeError::Connection),
        },
{
    match packet {
        Some(WSPacket::Init { id, token: given }) => {
            if given != *token {
                return Err(ShakeError::Token);
            }
            Ok(id)
        },
        _ => Err(ShakeError::Connection),
    }
}

/// Decides on the packet with which an offer is made.
pub fn check_offer(packet: Option<WSPacket>) -> (result: Result<String, ShakeError>)
    ensures
        result == offer_of(packet),
        result == match packet {
            Some(WSPacket::Offer(desc)) => Ok(desc),
            _ => Err(ShakeError::Connection),
        },
{
    match packet {
        Some(WSPacket::Offer(desc)) => Ok(desc),
        _ => Err(ShakeError::Connection),
    }
}

/// Decides on the packet with which an offer is answered.
pub fn check_answer(packet: Option<WSPacket>) -> (result: Result<String, ShakeError>)
    ensures
        result == answer_of(packet),
        result == match packet {
            Some(WSPacket::Answer(desc)) => Ok(desc),
            _ => Err(ShakeError::Connection),
        },
{
    match packet {
        Some(WSPacket::Answer(desc)) => Ok(desc),
        _ => Err(ShakeError::Connection),
    }
}

/// An index at which two names differ is the first one.
proof fn lemma_differs_first(a: Seq<u8>, b: Seq<u8>, from: int)
    requires
        0 <= from,
        forall|j: int| 0 <= j < from && j < a.len() && j < b.len() ==> a[j] == b[j],
    ensures
        match first_difference(a, b, from) {
            Some(i) => from <= i < a.len() && i < b.len() && a[i] != b[i] && forall|j: int|
                0 <= j < i ==> a[j] == b[j],
            None => forall|j: int| 0 <= j < a.len() && j < b.len() ==> a[j] == b[j],
        },
    decreases a.len() - from,
{
    if from < a.len() && from < b.len() && a[from] == b[from] {
        lemma_differs_first(a, b, from + 1);
    }
}

/// Which of two peers is the master: the one with the longer name; of names that are not longer, the one
/// that is larger at the first byte in which they differ. What the other name begins with is not the
/// master, and the same name is told.
pub proof fn lemma_master(a: Seq<u8>, b: Seq<u8>, i: int)
    ensures
        a.len() > b.len() ==> master_of(a, b) == Ok::<_, ShakeError>(true),
        a.len() <= b.len() && 0 <= i < a.len() && a[i] != b[i] && (forall|j: int|
            0 <= j < i ==> a[j] == b[j]) ==> master_of(a, b) == Ok::<_, ShakeError>(a[i] > b[i]),
        a.len() < b.len() && b.take(a.len() as int) == a ==> master_of(a, b) == Ok::<
            _,
            ShakeError,
        >(false),
        a == b ==> master_of(a, b) == Err::<bool, _>(ShakeError::SameId),
{
    lemma_differs_first(a, b, 0);
    if a.len() < b.len() && b.take(a.len() as int) == a {
        assert forall|j: int| 0 <= j < a.len() implies a[j] == b[j] by {
            assert(b.take(a.len() as int)[j] == b[j]);
        }
    }
    lemma_same_id(a, b);
}

/// A channel takes the place that its label names and leaves the other one; any other label is refused.
pub proof fn lemma_channels_placed(
    state: RTCShakeActorState,
    label: Seq<char>,
    channel: ChannelId,
)
    ensures
        state.with_channel("shake"@, channel) == Ok::<_, ShakeError>(
            RTCShakeActorState { signal_channel: Some(channel), ..state },
        ),
        state.with_channel("data"@, channel) == Ok::<_, ShakeError>(
            RTCShakeActorState { data_channel: Some(channel), ..state },
        ),
        label != "shake"@ && label != "data"@ ==> state.with_channel(label, channel) == Err::<
            RTCShakeActorState,
            _,
        >(ShakeError::Connection),
{
    reveal_strlit("shake");
    reveal_strlit("data");
    assert("shake"@.len() != "data"@.len());
}

/// Once the other end has made both channels, in whichever order, the connection is handed on with each
/// in its place, and the hand shake holds nothing of it any more. A channel with another label is
/// refused and changes nothing.
pub proof fn lemma_channels_handed_on(
    state: RTCShakeActorState,
    signal: ChannelId,
    data: ChannelId,
    label: Seq<char>,
)
    requires
        state.signal_channel is None,
        state.data_channel is None,
        label != "shake"@,
        label != "data"@,
    ensures
        ({
            let (first, nothing) = state.after_channel("shake"@, signal);
            let (last, peer) = first.after_channel("data"@, data);
            let (first_data, still) = state.after_channel("data"@, data);
            let (last_shake, other_peer) = first_data.after_channel("shake"@, signal);
            &&& nothing == Ok::<Option<Peer>, ShakeError>(None)
            &&& still == Ok::<Option<Peer>, ShakeError>(None)
            &&& peer == Ok::<_, ShakeError>(Some(Peer { signal, data }))
            &&& other_peer == peer
            &&& last == last_shake
            &&& last == (RTCShakeActorState { rtc: false, ..state })
            &&& state.after_channel(label, signal) == (
                state,
                Err::<Option<Peer>, _>(ShakeError::Connection),
            )
        }),
{
    reveal_strlit("shake");
    reveal_strlit("data");
    assert("shake"@.len() != "data"@.len());
}

/// Descriptions are exchanged once: the first one of the other end is taken, and answered by the end
/// that is not the master; any later one is ignored. The master keeps its own description, and the other
/// end has that of its answer.
pub proof fn lemma_descriptions_exchanged_once(state: RTCShakeActorState, answer: Option<String>)
    requires
        !state.remote_desc_set,
    ensures
        state.desc_step() == DescStep::TakeAndAnswer <==> !state.master,
        state.desc_step() == DescStep::Take <==> state.master,
        state.after_desc(answer).desc_step() == DescStep::Ignore,
        state.master ==> state.after_desc(answer).local_desc == state.local_desc,
        !state.master ==> state.after_desc(answer).local_desc == answer,
        state.after_desc(answer).master == state.master,
        state.after_desc(answer).remote_id == state.remote_id,
        state.after_desc(answer).rtc == state.rtc,
        state.after_desc(answer).signal_channel == state.signal_channel,
        state.after_desc(answer).data_channel == state.data_channel,
{
}

/// A hand shake that has been handed on still knows its peer and its descriptions, and nothing of its
/// connection.
pub proof fn lemma_nothing_left(state: RTCShakeActorState)
    ensures
        !state.handed_on().rtc,
        state.handed_on().signal_channel is None,
        state.handed_on().data_channel is None,
        state.handed_on().remote_id == state.remote_id,
        state.handed_on().master == state.master,
        state.handed_on().local_desc == state.local_desc,
        state.handed_on().remote_desc_set == state.remote_desc_set,
{
}

/// Each step of a hand shake takes the packet of that step and no other: a name only under the right
/// token, the description of an offer only from an offer, and that of an answer only from an answer.
/// What is taken is what was sent.
pub proof fn lemma_steps_take_their_packets(
    packet: Option<WSPacket>,
    token: Seq<char>,
    id: String,
    given: String,
    desc: String,
)
    ensures
        init_of(Some(WSPacket::Init { id, token: given }), token) is Ok <==> given@ == token,
        init_of(Some(WSPacket::Init { id, token: given }), given@) == Ok::<_, ShakeError>(id),
        offer_of(Some(WSPacket::Offer(desc))) == Ok::<_, ShakeError>(desc),
        answer_of(Some(WSPacket::Answer(desc))) == Ok::<_, ShakeError>(desc),
        init_of(packet, token) is Ok ==> offer_of(packet) is Err && answer_of(packet) is Err,
        offer_of(packet) is Ok ==> init_of(packet, token) is Err && answer_of(packet) is Err,
        answer_of(packet) is Ok ==> init_of(packet, token) is Err && offer_of(packet) is Err,
        packet is None ==> init_of(packet, token) == Err::<String, _>(ShakeError::Connection)
            && offer_of(packet) == Err::<String, _>(ShakeError::Connection) && answer_of(packet)
            == Err::<String, _>(ShakeError::Connection),
        offer_of(packet) matches Err(e) ==> e == ShakeError::Connection,
        answer_of(packet) matches Err(e) ==> e == ShakeError::Connection,
        init_of(packet, token) matches Err(e) ==> (e == ShakeError::Token || e
            == ShakeError::Connection),
        init_of(packet, token) == Err::<String, _>(ShakeError::Token) ==> packet matches Some(
            WSPacket::Init { .. },
        ),
{
}

} // verus!
