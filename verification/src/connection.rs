//! Links to other nodes: which servers to connect to, and whom to let in.

use vstd::prelude::*;
use vstd::string::*;
use crate::mesh::LinkError;
use crate::packet::{Duration, NodeId, SECOND};

verus! {

/// What two nodes tell each other when a link is made.
pub struct AuthPacket {
    pub token: Option<String>,
    pub node_id: NodeId,
}

/// Why a link was not made.
#[derive(Clone, Copy, PartialEq, Eq, Structural, Debug)]
pub enum AuthError {
    /// The other node did not tell who it is.
    NoReply,
    /// The other node does not know the token.
    InvalidToken,
}

/// How a request for a link is refused.
#[derive(Clone, Copy, PartialEq, Eq, Structural, Debug)]
pub enum RequestError {
    /// The token is missing or wrong.
    Unauthorized,
    /// The address of the node is missing or wrong.
    BadRequest,
}

/// The other node may link to this one: there is no token, or it has given the same one.
pub open spec fn is_authorized(token: Option<Seq<char>>, given: Option<Seq<char>>) -> bool {
    token is None || given == token
}

/// The characters of an optional text.
pub open spec fn text_of(text: Option<String>) -> Option<Seq<char>> {
    match text {
        Some(text) => Some(text@),
        None => None,
    }
}

/// The characters of an optional text.
pub open spec fn str_of(text: Option<&str>) -> Option<Seq<char>> {
    match text {
        Some(text) => Some(text@),
        None => None,
    }
}

/// Decides on the reply of another node.
pub fn check_auth(token: &Option<String>, reply: Option<AuthPacket>) -> (result: Result<
    NodeId,
    AuthError,
>)
    ensures
        result == match reply {
            None => Err(AuthError::NoReply),
            Some(reply) => if is_authorized(text_of(*token), text_of(reply.token)) {
                Ok(reply.node_id)
            } else {
                Err(AuthError::InvalidToken)
            },
        },
{
    let reply = match reply {
        Some(reply) => reply,
        None => {
            return Err(AuthError::NoReply);
        },
    };
    match token {
        Some(token) => match &reply.token {
            Some(given) => if *given == *token {
                Ok(reply.node_id)
            } else {
                Err(AuthError::InvalidToken)
            },
            None => Err(AuthError::InvalidToken),
        },
        None => Ok(reply.node_id),
    }
}

/// The value of a digit.
pub open spec fn digit_value(byte: u8) -> int {
    byte - 0x30
}

/// The byte is a digit.
pub open spec fn is_digit(byte: u8) -> bool {
    0x30 <= byte <= 0x39
}

/// The value of some digits.
pub open spec fn digits_value(bytes: Seq<u8>) -> int
    decreases bytes.len(),
{
    if bytes.len() == 0 {
        0
    } else {
        digits_value(bytes.drop_last()) * 10 + digit_value(bytes.last())
    }
}

/// The digits of a number behind the sign that it may have.
pub open spec fn unsigned_part(bytes: Seq<u8>) -> Seq<u8> {
    if bytes.len() > 0 && bytes[0] == 0x2b {
        bytes.skip(1)
    } else {
        bytes
    }
}

/// The address that a text is: digits only, at least one, perhaps behind a plus sign, and not too
/// large.
pub open spec fn node_id_of(bytes: Seq<u8>) -> Option<NodeId> {
    let digits = unsigned_part(bytes);
    if digits.len() > 0 && (forall|i: int| 0 <= i < digits.len() ==> is_digit(#[trigger] digits[i]))
        && digits_value(digits) <= u32::MAX {
        Some(digits_value(digits) as u32)
    } else {
        None
    }
}

/// Reads the address of a node.
pub fn parse_node_id(text: &str) -> (result: Option<NodeId>)
    ensures
        result == node_id_of(text.spec_bytes()),
{
    let bytes = text.as_bytes();
    let start: usize = if bytes.len() > 0 && bytes[0] == 0x2b {
        1
    } else {
        0
    };
    let ghost digits = unsigned_part(text.spec_bytes());
    if start == bytes.len() {
        assert(digits.len() == 0);
        return None;
    }
    let mut value: u64 = 0;
    let mut too_large = false;
    let mut i: usize = start;
    proof {
        assert(digits.take(0) =~= Seq::empty());
        assert(digits.len() == bytes.len() - start);
        assert forall|k: int| 0 <= k < digits.len() implies digits[k] == bytes@[k + start] by {}
    }
    while i < bytes.len()
        invariant
            start <= i <= bytes.len(),
            digits == unsigned_part(text.spec_bytes()),
            digits.len() == bytes.len() - start,
            forall|k: int| 0 <= k < digits.len() ==> digits[k] == bytes@[k + start],
            forall|k: int| 0 <= k < i - start ==> is_digit(#[trigger] digits[k]),
            digits_value(digits.take(i - start)) >= 0,
            !too_large ==> value == digits_value(digits.take(i - start)) && value <= u32::MAX,
            too_large ==> digits_value(digits.take(i - start)) > u32::MAX,
        decreases bytes.len() - i,
    {
        let byte = bytes[i];
        proof {
            assert(digits[i - start] == byte);
            assert(digits.take(i - start + 1).drop_last() =~= digits.take(i - start));
            assert(digits.take(i - start + 1).last() == byte);
        }
        if byte < 0x30 || byte > 0x39 {
            assert(!is_digit(digits[i - start]));
            return None;
        }
        if !too_large {
            value = value * 10 + (byte - 0x30) as u64;
            if value > 0xffff_ffff {
                too_large = true;
            }
        }
        i += 1;
    }
    proof {
        assert(digits.take(digits.len() as int) =~= digits);
    }
    if too_large {
        None
    } else {
        Some(value as u32)
    }
}

/// Decides on a request for a link, by the token and the address in its headers.
pub fn check_request(token: &Option<String>, authorization: Option<&str>, node_id: Option<&str>) -> (
    result: Result<NodeId, RequestError>)
    ensures
        result == if !is_authorized(text_of(*token), str_of(authorization)) {
            Err(RequestError::Unauthorized)
        } else {
            match node_id {
                None => Err(RequestError::BadRequest),
                Some(text) => match node_id_of(text.spec_bytes()) {
                    Some(id) => Ok(id),
                    None => Err(RequestError::BadRequest),
                },
            }
        },
{
    match token {
        Some(token) => match authorization {
            Some(given) => {
                if given.to_owned() != *token {
                    return Err(RequestError::Unauthorized);
                }
            },
            None => {
                return Err(RequestError::Unauthorized);
            },
        },
        None => {},
    }
    match node_id {
        Some(text) => match parse_node_id(text) {
            Some(id) => Ok(id),
            None => Err(RequestError::BadRequest),
        },
        None => Err(RequestError::BadRequest),
    }
}

/// Why a request for a link is turned down by a node that keeps one link to each other node.
#[derive(Clone, Copy, PartialEq, Eq, Structural, Debug)]
pub enum Rejection {
    MissingAuthorization,
    InvalidAuthorization,
    InvalidNodeId,
    LinkExists,
}

impl Rejection {
    /// The reason as text.
    pub open spec fn text(self) -> Seq<char> {
        match self {
            Rejection::MissingAuthorization => "Missing Authorization header"@,
            Rejection::InvalidAuthorization => "Invalid Authorization token"@,
            Rejection::InvalidNodeId => "Invalid X-Node-Id header"@,
            Rejection::LinkExists => "Link to this node already exists"@,
        }
    }

    /// The reason as text.
    pub fn message(&self) -> (text: String)
        ensures
            text@ == self.text(),
    {
        match self {
            Rejection::MissingAuthorization => "Missing Authorization header".to_owned(),
            Rejection::InvalidAuthorization => "Invalid Authorization token".to_owned(),
            Rejection::InvalidNodeId => "Invalid X-Node-Id header".to_owned(),
            Rejection::LinkExists => "Link to this node already exists".to_owned(),
        }
    }
}

/// What becomes of a request for a link, where there are links to `links` already.
pub open spec fn admission(
    token: Option<Seq<char>>,
    authorization: Option<Seq<char>>,
    node_id: Option<Seq<u8>>,
    links: Seq<NodeId>,
) -> Result<NodeId, Rejection> {
    if token is Some && authorization is None {
        Err(Rejection::MissingAuthorization)
    } else if !is_authorized(token, authorization) {
        Err(Rejection::InvalidAuthorization)
    } else {
        match node_id {
            None => Err(Rejection::InvalidNodeId),
            Some(bytes) => match node_id_of(bytes) {
                None => Err(Rejection::InvalidNodeId),
                Some(id) => if links.contains(id) {
                    Err(Rejection::LinkExists)
                } else {
                    Ok(id)
                },
            },
        }
    }
}

/// Whether a node is one of `links`.
fn has_link(links: &Vec<NodeId>, node: NodeId) -> (result: bool)
    ensures
        result == links@.contains(node),
{
    let mut i: usize = 0;
    while i < links.len()
        invariant
            i <= links.len(),
            forall|j: int| 0 <= j < i ==> links[j] != node,
        decreases links.len() - i,
    {
        if links[i] == node {
            return true;
        }
        i += 1;
    }
    false
}

/// Decides on a request for a link, where there are links to `links` already.
pub fn accept(
    token: &Option<String>,
    authorization: Option<&str>,
    node_id: Option<&str>,
    links: &Vec<NodeId>,
) -> (result: Result<NodeId, Rejection>)
    ensures
        result == admission(
            text_of(*token),
            str_of(authorization),
            match node_id {
                Some(text) => Some(text.spec_bytes()),
                None => None,
            },
            links@,
        ),
{
    match token {
        Some(token) => match authorization {
            Some(given) => {
                if given.to_owned() != *token {
                    return Err(Rejection::InvalidAuthorization);
                }
            },
            None => {
                return Err(Rejection::MissingAuthorization);
            },
        },
        None => {},
    }
    match node_id {
        Some(text) => match parse_node_id(text) {
            Some(id) => if has_link(links, id) {
                Err(Rejection::LinkExists)
            } else {
                Ok(id)
            },
            None => Err(Rejection::InvalidNodeId),
        },
        None => Err(Rejection::InvalidNodeId),
    }
}

/// What has come over a link.
#[derive(Clone, Copy, PartialEq, Eq, Structural, Debug)]
pub enum MessageKind {
    /// A packet.
    Binary,
    /// The wish to close the link.
    Close,
    /// Something that is no packet.
    Other,
    /// A failure.
    Failed,
    /// The end.
    End,
}

/// Whether there is a packet, or why there is none.
pub open spec fn message_outcome(kind: MessageKind) -> Result<(), LinkError> {
    match kind {
        MessageKind::Binary => Ok(()),
        MessageKind::Close | MessageKind::End => Err(LinkError::Closed),
        MessageKind::Other | MessageKind::Failed => Err(LinkError::Unknown),
    }
}

/// Whether there is a packet, or why there is none.
pub fn classify_message(kind: MessageKind) -> (result: Result<(), LinkError>)
    ensures
        result == message_outcome(kind),
        result == match kind {
            MessageKind::Binary => Ok(()),
            MessageKind::Close | MessageKind::End => Err(LinkError::Closed),
            MessageKind::Other | MessageKind::Failed => Err(LinkError::Unknown),
        },
{
    match kind {
        MessageKind::Binary => Ok(()),
        MessageKind::Close => Err(LinkError::Closed),
        MessageKind::End => Err(LinkError::Closed),
        MessageKind::Other => Err(LinkError::Unknown),
        MessageKind::Failed => Err(LinkError::Unknown),
    }
}

/// The text is one of the list.
pub open spec fn listed(list: Seq<String>, text: Seq<char>) -> bool {
    exists|i: int| 0 <= i < list.len() && (#[trigger] list[i])@ == text
}

/// Whether a text is one of the list.
pub fn is_listed(list: &Vec<String>, text: &String) -> (result: bool)
    ensures
        result == listed(list@, text@),
{
    let mut i: usize = 0;
    while i < list.len()
        invariant
            i <= list.len(),
            forall|j: int| 0 <= j < i ==> (#[trigger] list[j])@ != text@,
        decreases list.len() - i,
    {
        if list[i] == *text {
            assert(list@[i as int]@ == text@);
            return true;
        }
        i += 1;
    }
    false
}

/// The list without a text.
pub open spec fn unlisted(list: Seq<String>, text: Seq<char>) -> Seq<String>
    decreases list.len(),
{
    if list.len() == 0 {
        Seq::empty()
    } else {
        let before = unlisted(list.drop_last(), text);
        if list.last()@ == text {
            before
        } else {
            before.push(list.last())
        }
    }
}

/// The list without a text.
pub fn unlist(list: &Vec<String>, text: &String) -> (result: Vec<String>)
    ensures
        result@ == unlisted(list@, text@),
{
    let mut result: Vec<String> = Vec::new();
    let mut i: usize = 0;
    while i < list.len()
        invariant
            i <= list.len(),
            result@ == unlisted(list@.take(i as int), text@),
        decreases list.len() - i,
    {
        proof {
            assert(list@.take(i + 1).drop_last() =~= list@.take(i as int));
            assert(list@.take(i + 1).last() == list@[i as int]);
        }
        if list[i] != *text {
            result.push(list[i].clone());
        }
        i += 1;
    }
    assert(list@.take(list.len() as int) =~= list@);
    result
}

/// The attempts to start, and those under way after that, where `connecting` are under way and
/// `servers` are visited in order. An empty name is no server, and no server is tried twice at a
/// time.
pub open spec fn attempts(servers: Seq<String>, connecting: Seq<String>) -> (
    Seq<String>,
    Seq<String>,
)
    decreases servers.len(),
{
    if servers.len() == 0 {
        (Seq::empty(), connecting)
    } else {
        let (started, busy) = attempts(servers.drop_last(), connecting);
        let server = servers.last();
        if server@.len() == 0 || listed(busy, server@) {
            (started, busy)
        } else {
            (started.push(server), busy.push(server))
        }
    }
}

/// A server and the node that it turned out to be.
pub struct ServerEntry {
    pub server: String,
    pub node_id: NodeId,
}

/// No server occurs twice.
pub open spec fn distinct(entries: Seq<ServerEntry>) -> bool {
    forall|i: int, j: int|
        0 <= i < j < entries.len() ==> (#[trigger] entries[i]).server@ != (
        #[trigger] entries[j]).server@
}

/// What the servers turned out to be.
pub open spec fn known_servers(entries: Seq<ServerEntry>) -> Map<Seq<char>, NodeId> {
    Map::new(
        |server: Seq<char>| node_of(entries, server) is Some,
        |server: Seq<char>| node_of(entries, server)->0,
    )
}

/// The node that a server turned out to be, when it was last connected to.
pub open spec fn node_of(entries: Seq<ServerEntry>, server: Seq<char>) -> Option<NodeId>
    decreases entries.len(),
{
    if entries.len() == 0 {
        None
    } else if entries.last().server@ == server {
        Some(entries.last().node_id)
    } else {
        node_of(entries.drop_last(), server)
    }
}

/// The links that this node makes by itself.
pub struct ConnManager {
    pub id: NodeId,
    pub token: Option<String>,
    pub servers: Vec<String>,
    pub connect_interval: Duration,
    /// What servers turned out to be, each once.
    pub servers_map: Vec<ServerEntry>,
    /// The servers to which an attempt to connect is under way.
    pub connecting: Vec<String>,
}

impl ConnManager {
    /// No server is held twice.
    pub open spec fn wf(self) -> bool {
        distinct(self.servers_map@)
    }

    /// The links of node `id` to `servers`, with the usual time between attempts.
    pub fn new(id: NodeId, token: Option<String>, servers: Vec<String>) -> (mgr: ConnManager)
        ensures
            mgr.wf(),
            mgr.id == id,
            mgr.token == token,
            mgr.servers == servers,
            mgr.connect_interval == 8 * SECOND,
            mgr.servers_map@ == Seq::<ServerEntry>::empty(),
            mgr.connecting@ == Seq::<String>::empty(),
    {
        ConnManager::new_with_parameters(id, token, servers, 8 * SECOND)
    }

    /// The links of node `id` to `servers`.
    pub fn new_with_parameters(
        id: NodeId,
        token: Option<String>,
        servers: Vec<String>,
        connect_interval: Duration,
    ) -> (mgr: ConnManager)
        ensures
            mgr.wf(),
            mgr.id == id,
            mgr.token == token,
            mgr.servers == servers,
            mgr.connect_interval == connect_interval,
            mgr.servers_map@ == Seq::<ServerEntry>::empty(),
            mgr.connecting@ == Seq::<String>::empty(),
    {
        ConnManager {
            id,
            token,
            servers,
            connect_interval,
            servers_map: Vec::new(),
            connecting: Vec::new(),
        }
    }

    /// The servers to which an attempt to connect starts now.
    pub fn connect(&mut self) -> (started: Vec<String>)
        ensures
            (started@, final(self).connecting@) == attempts(
                old(self).servers@,
                old(self).connecting@,
            ),
            final(self).id == old(self).id,
            final(self).token == old(self).token,
            final(self).servers == old(self).servers,
            final(self).connect_interval == old(self).connect_interval,
            final(self).servers_map == old(self).servers_map,
    {
        let mut started: Vec<String> = Vec::new();
        let mut i: usize = 0;
        while i < self.servers.len()
            invariant
                i <= self.servers.len(),
                (started@, self.connecting@) == attempts(
                    self.servers@.take(i as int),
                    old(self).connecting@,
                ),
                self.id == old(self).id,
                self.token == old(self).token,
                self.servers == old(self).servers,
                self.connect_interval == old(self).connect_interval,
                self.servers_map == old(self).servers_map,
            decreases self.servers.len() - i,
        {
            proof {
                assert(self.servers@.take(i + 1).drop_last() =~= self.servers@.take(i as int));
                assert(self.servers@.take(i + 1).last() == self.servers@[i as int]);
            }
            let server = self.servers[i].clone();
            if !server.as_str().is_empty() && !is_listed(&self.connecting, &server) {
                self.connecting.push(server.clone());
                started.push(server);
            }
            i += 1;
        }
        assert(self.servers@.take(self.servers.len() as int) =~= self.servers@);
        started
    }

    /// An attempt to connect to a server has come to an end.
    pub fn finished(&mut self, server: &String)
        ensures
            final(self).connecting@ == unlisted(old(self).connecting@, server@),
            final(self).id == old(self).id,
            final(self).token == old(self).token,
            final(self).servers == old(self).servers,
            final(self).connect_interval == old(self).connect_interval,
            final(self).servers_map == old(self).servers_map,
    {
        self.connecting = unlist(&self.connecting, server);
    }

    /// Whether there is something to be gained by connecting to a server: not where there is a link
    /// already to the node that it turned out to be.
    pub fn needs_connection(&self, server: &String, links: &Vec<NodeId>) -> (result: bool)
        ensures
            result == match node_of(self.servers_map@, server@) {
                Some(node) => !links@.contains(node),
                None => true,
            },
    {
        let mut i: usize = self.servers_map.len();
        assert(self.servers_map@.take(i as int) =~= self.servers_map@);
        while i > 0
            invariant
                i <= self.servers_map.len(),
                node_of(self.servers_map@, server@) == node_of(
                    self.servers_map@.take(i as int),
                    server@,
                ),
            decreases i,
        {
            let ghost seen = self.servers_map@.take(i as int);
            proof {
                assert(seen.last() == self.servers_map@[i - 1]);
                assert(seen.drop_last() =~= self.servers_map@.take(i - 1));
            }
            if self.servers_map[i - 1].server == *server {
                return !has_link(links, self.servers_map[i - 1].node_id);
            }
            i -= 1;
        }
        true
    }

    /// A server has turned out to be a node. What it turned out to be before is forgotten.
    pub fn connected(&mut self, server: String, node_id: NodeId)
        requires
            old(self).wf(),
        ensures
            final(self).wf(),
            known_servers(final(self).servers_map@) == known_servers(
                old(self).servers_map@,
            ).insert(server@, node_id),
            final(self).id == old(self).id,
            final(self).token == old(self).token,
            final(self).servers == old(self).servers,
            final(self).connect_interval == old(self).connect_interval,
            final(self).connecting == old(self).connecting,
    {
        let ghost before = self.servers_map@;
        let ghost name = server@;
        let entry = ServerEntry { server, node_id };
        let mut i: usize = 0;
        while i < self.servers_map.len()
            invariant
                i <= self.servers_map.len(),
                *self == *old(self),
                before == self.servers_map@,
                distinct(before),
                entry.server@ == name,
                name == server@,
                before == old(self).servers_map@,
                entry.node_id == node_id,
                forall|j: int| 0 <= j < i ==> (#[trigger] before[j]).server@ != entry.server@,
            decreases self.servers_map.len() - i,
        {
            if self.servers_map[i].server == entry.server {
                proof {
                    assert forall|s: Seq<char>| #[trigger]
                        node_of(before.update(i as int, entry), s) == if s == name {
                            Some(node_id)
                        } else {
                            node_of(before, s)
                        } by {
                        lemma_entry_replaced(before, i as int, entry, s);
                    }
                }
                self.servers_map.set(i, entry);
                assert(known_servers(self.servers_map@) =~= known_servers(before).insert(
                    name,
                    node_id,
                ));
                return;
            }
            i += 1;
        }
        self.servers_map.push(entry);
        assert(self.servers_map@.drop_last() =~= before);
        assert(known_servers(self.servers_map@) =~= known_servers(before).insert(name, node_id));
    }
}

/// An entry that takes the place of the one for the same server changes what that server is, and
/// nothing else.
proof fn lemma_entry_replaced(
    entries: Seq<ServerEntry>,
    i: int,
    entry: ServerEntry,
    server: Seq<char>,
)
    requires
        distinct(entries),
        0 <= i < entries.len(),
        entries[i].server@ == entry.server@,
    ensures
        node_of(entries.update(i, entry), server) == if server == entry.server@ {
            Some(entry.node_id)
        } else {
            node_of(entries, server)
        },
    decreases entries.len(),
{
    let rest = entries.drop_last();
    let last = entries.len() - 1;
    if i == last {
        assert(entries.update(i, entry).drop_last() =~= rest);
    } else {
        assert(entries[i].server@ != entries[last].server@);
        assert forall|j: int, k: int| 0 <= j < k < rest.len() implies (
        #[trigger] rest[j]).server@ != (#[trigger] rest[k]).server@ by {
            assert(entries[j].server@ != entries[k].server@);
        }
        assert(entries.update(i, entry).drop_last() =~= rest.update(i, entry));
        lemma_entry_replaced(rest, i, entry, server);
    }
}

/// No attempt is started at a server to which one is under way.
pub proof fn lemma_no_attempt_twice(servers: Seq<String>, connecting: Seq<String>, i: int)
    requires
        0 <= i < attempts(servers, connecting).0.len(),
    ensures
        !listed(connecting, attempts(servers, connecting).0[i]@),
        attempts(servers, connecting).0[i]@.len() > 0,
    decreases servers.len(),
{
    if servers.len() > 0 {
        let rest = servers.drop_last();
        lemma_attempts_extend(rest, connecting);
        if i < attempts(rest, connecting).0.len() {
            lemma_no_attempt_twice(rest, connecting, i);
        } else {
            let (started, busy) = attempts(rest, connecting);
            let server = servers.last();
            if listed(connecting, server@) {
                let j = choose|j: int| 0 <= j < connecting.len() && (#[trigger] connecting[j])@ == server@;
                assert(busy[j] == connecting[j]);
            }
        }
    }
}

proof fn lemma_attempts_extend(servers: Seq<String>, connecting: Seq<String>)
    ensures
        attempts(servers, connecting).1 == connecting + attempts(servers, connecting).0,
    decreases servers.len(),
{
    if servers.len() > 0 {
        lemma_attempts_extend(servers.drop_last(), connecting);
        let (started, busy) = attempts(servers.drop_last(), connecting);
        assert((connecting + started).push(servers.last()) =~= connecting + started.push(
            servers.last(),
        ));
    } else {
        assert(connecting + Seq::<String>::empty() =~= connecting);
    }
}

/// Without a token everybody may link; with one only who gives the same.
pub proof fn lemma_authorization(token: Seq<char>, given: Option<Seq<char>>)
    ensures
        is_authorized(None, given),
        is_authorized(Some(token), given) <==> given == Some(token),
        !is_authorized(Some(token), None),
{
}

/// An optional text is as many characters as the text has.
pub proof fn lemma_optional_texts(text: String, part: &str)
    ensures
        text_of(Some(text)) == Some(text@),
        text_of(None) == None::<Seq<char>>,
        str_of(Some(part)) == Some(part@),
        str_of(None) == None::<Seq<char>>,
{
}

proof fn lemma_digits_value(digits: Seq<u8>)
    requires
        forall|i: int| 0 <= i < digits.len() ==> is_digit(#[trigger] digits[i]),
    ensures
        digits_value(digits) >= 0,
    decreases digits.len(),
{
    if digits.len() > 0 {
        let rest = digits.drop_last();
        assert forall|i: int| 0 <= i < rest.len() implies is_digit(#[trigger] rest[i]) by {
            assert(rest[i] == digits[i]);
        }
        lemma_digits_value(rest);
        assert(is_digit(digits[digits.len() - 1]));
    }
}

/// The address of a node is read digit by digit: a single digit is its value, a further one counts ten
/// times what was there and itself, as long as the address fits; anything else makes it none. A sign
/// before it makes no difference.
pub proof fn lemma_node_id_read(bytes: Seq<u8>, byte: u8)
    ensures
        node_id_of(Seq::empty()) is None,
        48 <= byte <= 57 ==> node_id_of(seq![byte]) == Some((byte - 48) as u32),
        !(48 <= byte <= 57) ==> node_id_of(seq![byte]) is None,
        node_id_of(bytes) matches Some(n) ==> if 48 <= byte <= 57 && n * 10 + (byte - 48)
            <= 4294967295 {
            node_id_of(bytes.push(byte)) == Some((n * 10 + (byte - 48)) as u32)
        } else {
            node_id_of(bytes.push(byte)) is None
        },
        bytes.len() > 0 && bytes[0] != 43 ==> node_id_of(seq![43u8] + bytes) == node_id_of(bytes),
        node_id_of(seq![43u8]) is None,
{
    assert(unsigned_part(Seq::<u8>::empty()) =~= Seq::<u8>::empty());
    let one = seq![byte];
    if byte != 43 {
        assert(one.drop_last() =~= Seq::<u8>::empty());
        assert(digits_value(one) == digits_value(Seq::<u8>::empty()) * 10 + digit_value(byte));
        if !(48 <= byte <= 57) {
            assert(!is_digit(one[0]));
        }
    } else {
        assert(unsigned_part(one) =~= Seq::<u8>::empty());
    }
    assert(unsigned_part(seq![43u8]) =~= Seq::<u8>::empty());
    let digits = unsigned_part(bytes);
    let longer = bytes.push(byte);
    if node_id_of(bytes) is Some {
        lemma_digits_value(digits);
    }
    if node_id_of(bytes) is Some {
        if bytes[0] == 43 {
            assert(unsigned_part(longer) =~= digits.push(byte));
        } else {
            assert(unsigned_part(longer) =~= digits.push(byte));
        }
        assert(digits.push(byte).drop_last() =~= digits);
        if 48 <= byte <= 57 {
            assert forall|i: int| 0 <= i < digits.push(byte).len() implies is_digit(
                #[trigger] digits.push(byte)[i],
            ) by {
                if i < digits.len() {
                    assert(is_digit(digits[i]));
                }
            }
        } else {
            assert(!is_digit(digits.push(byte)[digits.len() as int]));
        }
    }
    if bytes.len() > 0 && bytes[0] != 43 {
        let signed = seq![43u8] + bytes;
        assert(unsigned_part(signed) =~= bytes);
    }
}

/// A link is admitted if and only if the token is given, where there is one, the address can be read,
/// and there is no link to that node yet. What is missing or wrong first is told.
pub proof fn lemma_admission(
    token: Option<Seq<char>>,
    authorization: Option<Seq<char>>,
    node_id: Option<Seq<u8>>,
    links: Seq<NodeId>,
)
    ensures
        ({
            let result = admission(token, authorization, node_id, links);
            let read = match node_id {
                Some(bytes) => node_id_of(bytes),
                None => None,
            };
            let trusted = token is None || authorization == token;
            &&& result matches Ok(id) ==> trusted && read == Some(id) && !links.contains(id)
            &&& trusted && (read matches Some(id) && !links.contains(id)) ==> result is Ok
            &&& !trusted && authorization is None ==> result == Err::<NodeId, _>(
                Rejection::MissingAuthorization,
            )
            &&& !trusted && authorization is Some ==> result == Err::<NodeId, _>(
                Rejection::InvalidAuthorization,
            )
            &&& trusted && read is None ==> result == Err::<NodeId, _>(Rejection::InvalidNodeId)
            &&& trusted && (read matches Some(id) && links.contains(id)) ==> result == Err::<
                NodeId,
                _,
            >(Rejection::LinkExists)
        }),
{
}

/// A text that is taken off a list is on it no longer; the others stay, in order.
pub proof fn lemma_unlisted(list: Seq<String>, more: Seq<String>, text: Seq<char>)
    ensures
        !listed(unlisted(more, text), text),
        forall|s: String| #[trigger]
            unlisted(more, text).contains(s) <==> more.contains(s) && s@ != text,
        unlisted(list + more, text) == unlisted(list, text) + unlisted(more, text),
    decreases more.len(),
{
    let p = |s: String| s@ != text;
    if more.len() > 0 {
        let rest = more.drop_last();
        lemma_unlisted(list, rest, text);
        assert((list + more).drop_last() =~= list + rest);
        assert((list + more).last() == more.last());
        assert(unlisted(list + more, text) =~= unlisted(list, text) + unlisted(more, text));
        crate::tables::lemma_picked(more, unlisted(rest, text), unlisted(more, text), p);
        assert forall|i: int| 0 <= i < unlisted(more, text).len() implies (
        #[trigger] unlisted(more, text)[i])@ != text by {
            assert(unlisted(more, text).contains(unlisted(more, text)[i]));
        }
    } else {
        assert(list + more =~= list);
        assert(unlisted(list, text) + unlisted(more, text) =~= unlisted(list, text));
    }
}

/// An attempt is started at each server with a name at which none is under way, and at no other; then
/// one is under way at every server with a name.
pub proof fn lemma_attempts_started(servers: Seq<String>, connecting: Seq<String>, text: Seq<char>)
    ensures
        listed(attempts(servers, connecting).0, text) <==> text.len() > 0 && listed(servers, text)
            && !listed(connecting, text),
        listed(attempts(servers, connecting).1, text) <==> listed(connecting, text) || (text.len() > 0
            && listed(servers, text)),
    decreases servers.len(),
{
    if servers.len() > 0 {
        let rest = servers.drop_last();
        let (started, busy) = attempts(rest, connecting);
        let (all_started, all_busy) = attempts(servers, connecting);
        lemma_attempts_started(rest, connecting, text);
        lemma_attempts_started(rest, connecting, servers.last()@);
        assert(rest.push(servers.last()) =~= servers);
        lemma_listed_pushed(rest, servers, text);
        lemma_listed_pushed(started, all_started, text);
        lemma_listed_pushed(busy, all_busy, text);
    }
}

proof fn lemma_listed_pushed(before: Seq<String>, after: Seq<String>, text: Seq<char>)
    requires
        after == before || (after.len() > 0 && after == before.push(after.last())),
    ensures
        listed(after, text) <==> listed(before, text) || (after != before && after.last()@ == text),
{
    if listed(before, text) {
        let i = choose|i: int| 0 <= i < before.len() && (#[trigger] before[i])@ == text;
        assert(after[i] == before[i]);
    }
    if listed(after, text) {
        let i = choose|i: int| 0 <= i < after.len() && (#[trigger] after[i])@ == text;
        if i < before.len() {
            assert(before[i] == after[i]);
        }
    }
    if after != before {
        assert(after[after.len() - 1] == after.last());
    }
}

/// What a server turned out to be is what its entry says.
pub proof fn lemma_servers_known(entries: Seq<ServerEntry>, i: int)
    requires
        distinct(entries),
        0 <= i < entries.len(),
    ensures
        node_of(entries, entries[i].server@) == Some(entries[i].node_id),
        known_servers(entries).contains_key(entries[i].server@),
        known_servers(entries)[entries[i].server@] == entries[i].node_id,
    decreases entries.len(),
{
    let last = entries.len() - 1;
    let rest = entries.drop_last();
    if i < last {
        assert(entries[i].server@ != entries[last].server@);
        assert forall|j: int, k: int| 0 <= j < k < rest.len() implies (
        #[trigger] rest[j]).server@ != (#[trigger] rest[k]).server@ by {
            assert(entries[j].server@ != entries[k].server@);
        }
        lemma_servers_known(rest, i);
    }
}

/// A server without an entry is not known.
pub proof fn lemma_server_unknown(entries: Seq<ServerEntry>, server: Seq<char>)
    requires
        forall|i: int| 0 <= i < entries.len() ==> (#[trigger] entries[i]).server@ != server,
    ensures
        node_of(entries, server) is None,
        !known_servers(entries).contains_key(server),
    decreases entries.len(),
{
    if entries.len() > 0 {
        let rest = entries.drop_last();
        assert forall|i: int| 0 <= i < rest.len() implies (#[trigger] rest[i]).server@ != server by {
            assert(rest[i] == entries[i]);
        }
        lemma_server_unknown(rest, server);
        assert(entries[entries.len() - 1].server@ != server);
    }
}

/// There is a packet in a binary message and in nothing else. A link counts as closed only where its end
/// was wished for or has come.
pub proof fn lemma_messages(kind: MessageKind)
    ensures
        message_outcome(kind) is Ok <==> kind is Binary,
        message_outcome(kind) == Err::<(), _>(LinkError::Closed) <==> kind is Close || kind is End,
        message_outcome(kind) == Err::<(), _>(LinkError::Unknown) <==> kind is Other || kind is Failed,
{
}

} // verus!
