//! What the control program prints.

use vstd::prelude::*;
use vstd::string::*;
use std::collections::HashMap;
use crate::config::texts;
use crate::fullmesh::fm_ice::PeerReport;
use crate::packet::NodeId;
use crate::tables::node_keys;
use crate::text::{
    decimal, digit, hexadecimal, push_decimal, push_hexadecimal, push_signed, push_truth,
    signed_decimal, truth,
};
use crate::uapi::{ConnEntry, ConnState, CryonetUapi, IgpRoute, PeerEntry};

verus! {

broadcast use vstd::std_specs::hash::group_hash_axioms;

/// How std shows an optional text for debugging: quoted, with escapes.
pub uninterp spec fn debug_text(text: Option<Seq<char>>) -> Seq<char>;

/// The digit with the value `d` as a small letter where it is a letter.
pub open spec fn small_digit(d: int) -> char {
    if d == 10 {
        'a'
    } else if d == 11 {
        'b'
    } else if d == 12 {
        'c'
    } else if d == 13 {
        'd'
    } else if d == 14 {
        'e'
    } else if d == 15 {
        'f'
    } else {
        digit(d)
    }
}

/// The last `width` digits of a number in base sixteen, with small letters.
pub open spec fn small_hexadecimal(n: int, width: nat) -> Seq<char>
    decreases width,
{
    if width == 0 {
        Seq::empty()
    } else {
        small_hexadecimal(n / 16, (width - 1) as nat).push(small_digit(n % 16))
    }
}

/// An identifier: 32 digits in groups of eight, four, four, four and twelve, with hyphens between
/// them.
pub open spec fn uuid_text(uuid: u128) -> Seq<char> {
    small_hexadecimal(uuid as int / 0x1_0000_0000_0000_0000_0000_0000, 8).push('-')
        + small_hexadecimal(uuid as int / 0x1_0000_0000_0000_0000_0000, 4).push('-')
        + small_hexadecimal(uuid as int / 0x1_0000_0000_0000_0000, 4).push('-')
        + small_hexadecimal(uuid as int / 0x1_0000_0000_0000, 4).push('-') + small_hexadecimal(
        uuid as int,
        12,
    )
}

/// `Display` of `Uuid` of the crate `uuid`: 32 digits in base sixteen with small letters, in groups
/// of eight, four, four, four and twelve.
#[verifier::external_body]
fn show_uuid(uuid: u128) -> (text: String)
    ensures
        text@ == uuid_text(uuid),
{
    uuid::Uuid::from_u128(uuid).to_string()
}

/// `Debug` of std for an optional text.
#[verifier::external_body]
fn show_optional(text: &Option<String>) -> (shown: String)
    ensures
        shown@ == debug_text(
            match text {
                Some(text) => Some(text@),
                None => None,
            },
        ),
{
    format!("{:?}", text)
}

/// The name of a state.
pub open spec fn state_text(state: ConnState) -> Seq<char> {
    match state {
        ConnState::New => "New"@,
        ConnState::Connecting => "Connecting"@,
        ConnState::Connected => "Connected"@,
        ConnState::Disconnected => "Disconnected"@,
        ConnState::Failed => "Failed"@,
        ConnState::Closed => "Closed"@,
    }
}

/// The place of a key in an order of indices by ascending key: behind all keys that are not larger.
pub open spec fn rank_place(keys: Seq<i128>, order: Seq<usize>, key: i128) -> int
    decreases order.len(),
{
    if order.len() == 0 || keys[order.last() as int] <= key {
        order.len() as int
    } else {
        rank_place(keys, order.drop_last(), key)
    }
}

/// The indices of the first `n` keys by ascending key; those of equal keys stay in order.
pub open spec fn ranking(keys: Seq<i128>, n: int) -> Seq<usize>
    decreases n,
{
    if n <= 0 {
        Seq::empty()
    } else {
        let before = ranking(keys, n - 1);
        before.insert(rank_place(keys, before, keys[n - 1]), (n - 1) as usize)
    }
}

/// The indices of the keys by ascending key.
pub fn rank(keys: &Vec<i128>) -> (order: Vec<usize>)
    ensures
        order@ == ranking(keys@, keys@.len() as int),
        order@.len() == keys@.len(),
        forall|i: int| 0 <= i < order@.len() ==> #[trigger] order@[i] < keys@.len(),
{
    let mut order: Vec<usize> = Vec::new();
    let mut i: usize = 0;
    while i < keys.len()
        invariant
            i <= keys.len(),
            order@ == ranking(keys@, i as int),
            order@.len() == i,
            forall|j: int| 0 <= j < order@.len() ==> #[trigger] order@[j] < keys@.len(),
        decreases keys.len() - i,
    {
        let key: i128 = keys[i];
        let mut k: usize = order.len();
        assert(order@.take(k as int) =~= order@);
        while k > 0 && keys[order[k - 1]] > key
            invariant
                k <= order.len(),
                order@.len() == i,
                forall|j: int| 0 <= j < order@.len() ==> #[trigger] order@[j] < keys@.len(),
                rank_place(keys@, order@, key) == rank_place(keys@, order@.take(k as int), key),
            decreases k,
        {
            proof {
                assert(order@.take(k as int).last() == order@[k - 1]);
                assert(order@.take(k as int).drop_last() =~= order@.take(k - 1));
            }
            k -= 1;
        }
        proof {
            if k > 0 {
                assert(order@.take(k as int).last() == order@[k - 1]);
            }
            assert(rank_place(keys@, order@.take(k as int), key) == k);
        }
        order.insert(k, i);
        i += 1;
    }
    order
}

/// The lines about links.
pub open spec fn link_lines(links: Seq<NodeId>, order: Seq<usize>, n: int) -> Seq<Seq<char>>
    decreases n,
{
    if n <= 0 {
        seq!["Links:"@]
    } else {
        link_lines(links, order, n - 1).push("  "@ + hexadecimal(links[order[n - 1] as int] as int))
    }
}

/// The keys by which nodes are ordered.
pub open spec fn node_ranks(nodes: Seq<NodeId>) -> Seq<i128> {
    Seq::new(nodes.len(), |i: int| nodes[i] as i128)
}

/// The keys by which nodes are ordered.
fn rank_nodes(nodes: &Vec<NodeId>) -> (keys: Vec<i128>)
    ensures
        keys@ == node_ranks(nodes@),
{
    let mut keys: Vec<i128> = Vec::new();
    let mut i: usize = 0;
    while i < nodes.len()
        invariant
            i <= nodes.len(),
            keys.len() == i,
            forall|j: int| 0 <= j < i ==> keys[j] == nodes[j],
        decreases nodes.len() - i,
    {
        keys.push(nodes[i] as i128);
        i += 1;
    }
    assert(keys@ =~= node_ranks(nodes@));
    keys
}

/// Adds a line.
fn push_line(lines: &mut Vec<String>, line: String)
    ensures
        texts(final(lines)@) == texts(old(lines)@).push(line@),
{
    lines.push(line);
    assert(texts(lines@) =~= texts(old(lines)@).push(line@));
}

/// One line.
fn first_line(line: &str) -> (lines: Vec<String>)
    ensures
        texts(lines@) == seq![line@],
{
    let mut lines: Vec<String> = Vec::new();
    lines.push(line.to_owned());
    assert(texts(lines@) =~= seq![line@]);
    lines
}

/// What is printed about links: them by ascending address.
pub fn show_links(links: &Vec<NodeId>) -> (lines: Vec<String>)
    ensures
        texts(lines@) == link_lines(
            links@,
            ranking(node_ranks(links@), links@.len() as int),
            links@.len() as int,
        ),
{
    let order = rank(&rank_nodes(links));
    let mut lines = first_line("Links:");
    let mut i: usize = 0;
    while i < order.len()
        invariant
            i <= order.len(),
            order.len() == links.len(),
            forall|j: int| 0 <= j < order@.len() ==> #[trigger] order@[j] < links@.len(),
            texts(lines@) == link_lines(links@, order@, i as int),
        decreases order.len() - i,
    {
        let mut line = "  ".to_owned();
        push_hexadecimal(&mut line, links[order[i]] as u64);
        push_line(&mut lines, line);
        i += 1;
    }
    lines
}

/// The lines about routes, where `dsts` are the destinations.
pub open spec fn route_lines(
    routes: Map<NodeId, NodeId>,
    dsts: Seq<NodeId>,
    order: Seq<usize>,
    n: int,
) -> Seq<Seq<char>>
    decreases n,
{
    if n <= 0 {
        seq!["Routes:"@]
    } else {
        let dst = dsts[order[n - 1] as int];
        route_lines(routes, dsts, order, n - 1).push(
            "  "@ + hexadecimal(dst as int) + " -> "@ + hexadecimal(routes[dst] as int),
        )
    }
}

/// What is printed about routes: them by ascending destination.
pub fn show_routes(routes: &HashMap<NodeId, NodeId>) -> (lines: Vec<String>)
    ensures
        exists|dsts: Seq<NodeId>|
            dsts.no_duplicates() && dsts.to_set() == routes@.dom() && texts(lines@)
                == #[trigger] route_lines(
                routes@,
                dsts,
                ranking(node_ranks(dsts), dsts.len() as int),
                dsts.len() as int,
            ),
{
    let dsts = node_keys(routes);
    let order = rank(&rank_nodes(&dsts));
    let mut lines = first_line("Routes:");
    let mut i: usize = 0;
    proof {
        assert forall|j: int| 0 <= j < dsts@.len() implies routes@.contains_key(
            #[trigger] dsts@[j],
        ) by {
            assert(dsts@.to_set().contains(dsts@[j]));
        }
    }
    while i < order.len()
        invariant
            i <= order.len(),
            order.len() == dsts.len(),
            forall|j: int| 0 <= j < order@.len() ==> #[trigger] order@[j] < dsts@.len(),
            forall|j: int| 0 <= j < dsts@.len() ==> routes@.contains_key(#[trigger] dsts@[j]),
            texts(lines@) == route_lines(routes@, dsts@, order@, i as int),
        decreases order.len() - i,
    {
        let dst = dsts[order[i]];
        assert(routes@.contains_key(dsts@[order@[i as int] as int]));
        let mut line = "  ".to_owned();
        push_hexadecimal(&mut line, dst as u64);
        line.append(" -> ");
        match routes.get(&dst) {
            Some(next_hop) => {
                push_hexadecimal(&mut line, *next_hop as u64);
            },
            None => {},
        }
        push_line(&mut lines, line);
        i += 1;
    }
    lines
}

/// The line about a route of the routing protocol.
pub open spec fn igp_route_line(route: IgpRoute) -> Seq<char> {
    "  dst: "@ + hexadecimal(route.dst as int) + ", from: "@ + hexadecimal(route.from as int)
        + ", metric: "@ + decimal(route.metric as int) + ", computed_metric: "@ + decimal(
        route.computed_metric as int,
    ) + ", seq: "@ + decimal(route.seq as int) + ", selected: "@ + truth(route.selected)
        + ", timeout_remaining: "@ + signed_decimal(route.timeout_remaining_ms as int) + "ms"@
}

/// The lines about the routes of the routing protocol.
pub open spec fn igp_route_lines(routes: Seq<IgpRoute>, order: Seq<usize>, n: int) -> Seq<Seq<char>>
    decreases n,
{
    if n <= 0 {
        seq!["IGP Routes:"@]
    } else {
        igp_route_lines(routes, order, n - 1).push(igp_route_line(routes[order[n - 1] as int]))
    }
}

/// The keys by which the routes of the routing protocol are ordered.
pub open spec fn timeout_ranks(routes: Seq<IgpRoute>) -> Seq<i128> {
    Seq::new(routes.len(), |i: int| routes[i].timeout_remaining_ms as i128)
}

/// What is printed about the routes of the routing protocol: the one that times out first comes first.
pub fn show_igp_routes(routes: &Vec<IgpRoute>) -> (lines: Vec<String>)
    ensures
        texts(lines@) == igp_route_lines(
            routes@,
            ranking(timeout_ranks(routes@), routes@.len() as int),
            routes@.len() as int,
        ),
{
    let mut keys: Vec<i128> = Vec::new();
    let mut k: usize = 0;
    while k < routes.len()
        invariant
            k <= routes.len(),
            keys.len() == k,
            forall|j: int| 0 <= j < k ==> keys[j] == routes[j].timeout_remaining_ms,
        decreases routes.len() - k,
    {
        keys.push(routes[k].timeout_remaining_ms as i128);
        k += 1;
    }
    assert(keys@ =~= timeout_ranks(routes@));
    let order = rank(&keys);
    let mut lines = first_line("IGP Routes:");
    let mut i: usize = 0;
    while i < order.len()
        invariant
            i <= order.len(),
            order.len() == routes.len(),
            forall|j: int| 0 <= j < order@.len() ==> #[trigger] order@[j] < routes@.len(),
            texts(lines@) == igp_route_lines(routes@, order@, i as int),
        decreases order.len() - i,
    {
        let route = routes[order[i]];
        let mut line = "  dst: ".to_owned();
        push_hexadecimal(&mut line, route.dst as u64);
        line.append(", from: ");
        push_hexadecimal(&mut line, route.from as u64);
        line.append(", metric: ");
        push_decimal(&mut line, route.metric as u64);
        line.append(", computed_metric: ");
        push_decimal(&mut line, route.computed_metric as u64);
        line.append(", seq: ");
        push_decimal(&mut line, route.seq as u64);
        line.append(", selected: ");
        push_truth(&mut line, route.selected);
        line.append(", timeout_remaining: ");
        push_signed(&mut line, route.timeout_remaining_ms);
        line.append("ms");
        push_line(&mut lines, line);
        i += 1;
    }
    lines
}

/// The line about a connection.
pub open spec fn conn_line(entry: ConnEntry) -> Seq<char> {
    "    Conn "@ + uuid_text(entry.id) + ": state: "@ + state_text(entry.conn.state) + ", selected: "@
        + truth(entry.conn.selected) + ", candidate: "@ + debug_text(
        match entry.conn.selected_candidate {
            Some(text) => Some(text@),
            None => None,
        },
    ) + ", elapsed: "@ + decimal(entry.conn.elapsed_ms as int) + "ms"@
}

/// The lines about the connections to a node.
pub open spec fn conn_lines(conns: Seq<ConnEntry>, order: Seq<usize>, n: int) -> Seq<Seq<char>>
    decreases n,
{
    if n <= 0 {
        Seq::empty()
    } else {
        conn_lines(conns, order, n - 1).push(conn_line(conns[order[n - 1] as int]))
    }
}

/// The keys by which connections are ordered: the oldest comes first.
pub open spec fn age_ranks(conns: Seq<ConnEntry>) -> Seq<i128> {
    Seq::new(conns.len(), |i: int| (0 - conns[i].conn.elapsed_ms as int) as i128)
}

/// The lines about a node.
pub open spec fn peer_lines(peer: PeerEntry) -> Seq<Seq<char>> {
    seq!["  Node "@ + hexadecimal(peer.node_id as int) + ":"@] + conn_lines(
        peer.conns@,
        ranking(age_ranks(peer.conns@), peer.conns@.len() as int),
        peer.conns@.len() as int,
    )
}

/// The keys by which nodes with connections are ordered.
pub open spec fn peer_ranks(peers: Seq<PeerEntry>) -> Seq<i128> {
    Seq::new(peers.len(), |i: int| peers[i].node_id as i128)
}

/// The lines about nodes with connections.
pub open spec fn peers_lines(peers: Seq<PeerEntry>, order: Seq<usize>, n: int) -> Seq<Seq<char>>
    decreases n,
{
    if n <= 0 {
        seq!["Full Mesh Peers:"@]
    } else {
        peers_lines(peers, order, n - 1) + peer_lines(peers[order[n - 1] as int])
    }
}

/// The name of a state.
fn show_state(state: ConnState) -> (text: &'static str)
    ensures
        text@ == state_text(state),
{
    match state {
        ConnState::New => "New",
        ConnState::Connecting => "Connecting",
        ConnState::Connected => "Connected",
        ConnState::Disconnected => "Disconnected",
        ConnState::Failed => "Failed",
        ConnState::Closed => "Closed",
    }
}

/// The line about a connection.
fn show_conn(entry: &ConnEntry) -> (line: String)
    ensures
        line@ == conn_line(*entry),
{
    let mut line = "    Conn ".to_owned();
    line.append(show_uuid(entry.id).as_str());
    line.append(": state: ");
    line.append(show_state(entry.conn.state));
    line.append(", selected: ");
    push_truth(&mut line, entry.conn.selected);
    line.append(", candidate: ");
    line.append(show_optional(&entry.conn.selected_candidate).as_str());
    line.append(", elapsed: ");
    push_decimal(&mut line, entry.conn.elapsed_ms);
    line.append("ms");
    line
}

/// Adds the lines about a node.
fn show_peer(lines: &mut Vec<String>, peer: &PeerEntry)
    ensures
        texts(final(lines)@) == texts(old(lines)@) + peer_lines(*peer),
{
    let ghost before = texts(lines@);
    let mut line = "  Node ".to_owned();
    push_hexadecimal(&mut line, peer.node_id as u64);
    line.append(":");
    let ghost head = line@;
    push_line(lines, line);
    let mut keys: Vec<i128> = Vec::new();
    let mut k: usize = 0;
    while k < peer.conns.len()
        invariant
            k <= peer.conns.len(),
            keys.len() == k,
            forall|j: int| 0 <= j < k ==> keys[j] == 0 - peer.conns[j].conn.elapsed_ms,
        decreases peer.conns.len() - k,
    {
        keys.push(0 - peer.conns[k].conn.elapsed_ms as i128);
        k += 1;
    }
    assert(keys@ =~= age_ranks(peer.conns@));
    let order = rank(&keys);
    let mut i: usize = 0;
    assert(texts(lines@) =~= before + (seq![head] + conn_lines(peer.conns@, order@, 0)));
    while i < order.len()
        invariant
            i <= order.len(),
            order.len() == peer.conns.len(),
            forall|j: int| 0 <= j < order@.len() ==> #[trigger] order@[j] < peer.conns@.len(),
            texts(lines@) == before + (seq![head] + conn_lines(peer.conns@, order@, i as int)),
        decreases order.len() - i,
    {
        let ghost held = conn_lines(peer.conns@, order@, i as int);
        let line = show_conn(&peer.conns[order[i]]);
        let ghost shown = line@;
        push_line(lines, line);
        assert((before + (seq![head] + held)).push(shown) =~= before + (seq![head] + held.push(
            shown,
        )));
        i += 1;
    }
}

/// What is printed about nodes with connections: them by ascending address, and of each the oldest
/// connection first.
pub fn show_peers(peers: &Vec<PeerEntry>) -> (lines: Vec<String>)
    ensures
        texts(lines@) == peers_lines(
            peers@,
            ranking(peer_ranks(peers@), peers@.len() as int),
            peers@.len() as int,
        ),
{
    let mut keys: Vec<i128> = Vec::new();
    let mut k: usize = 0;
    while k < peers.len()
        invariant
            k <= peers.len(),
            keys.len() == k,
            forall|j: int| 0 <= j < k ==> keys[j] == peers[j].node_id,
        decreases peers.len() - k,
    {
        keys.push(peers[k].node_id as i128);
        k += 1;
    }
    assert(keys@ =~= peer_ranks(peers@));
    let order = rank(&keys);
    let mut lines = first_line("Full Mesh Peers:");
    let mut i: usize = 0;
    while i < order.len()
        invariant
            i <= order.len(),
            order.len() == peers.len(),
            forall|j: int| 0 <= j < order@.len() ==> #[trigger] order@[j] < peers@.len(),
            texts(lines@) == peers_lines(peers@, order@, i as int),
        decreases order.len() - i,
    {
        show_peer(&mut lines, &peers[order[i]]);
        i += 1;
    }
    lines
}

/// The line about a node with one connection.
pub open spec fn report_line(report: PeerReport) -> Seq<char> {
    "  Node "@ + hexadecimal(report.node_id as int) + ": state: "@ + state_text(report.state)
        + ", candidate: "@ + debug_text(
        match report.selected_candidate {
            Some(text) => Some(text@),
            None => None,
        },
    ) + ", sent: "@ + decimal(report.sent as int) + ", received: "@ + decimal(
        report.received as int,
    )
}

/// The keys by which nodes with one connection are ordered.
pub open spec fn report_ranks(reports: Seq<PeerReport>) -> Seq<i128> {
    Seq::new(reports.len(), |i: int| reports[i].node_id as i128)
}

/// The lines about nodes with one connection.
pub open spec fn report_lines(reports: Seq<PeerReport>, order: Seq<usize>, n: int) -> Seq<Seq<char>>
    decreases n,
{
    if n <= 0 {
        seq!["Full Mesh Peers:"@]
    } else {
        report_lines(reports, order, n - 1).push(report_line(reports[order[n - 1] as int]))
    }
}

/// What is printed about nodes with one connection each, by ascending address.
pub fn show_reports(reports: &Vec<PeerReport>) -> (lines: Vec<String>)
    ensures
        texts(lines@) == report_lines(
            reports@,
            ranking(report_ranks(reports@), reports@.len() as int),
            reports@.len() as int,
        ),
{
    let mut keys: Vec<i128> = Vec::new();
    let mut k: usize = 0;
    while k < reports.len()
        invariant
            k <= reports.len(),
            keys.len() == k,
            forall|j: int| 0 <= j < k ==> keys[j] == reports[j].node_id,
        decreases reports.len() - k,
    {
        keys.push(reports[k].node_id as i128);
        k += 1;
    }
    assert(keys@ =~= report_ranks(reports@));
    let order = rank(&keys);
    let mut lines = first_line("Full Mesh Peers:");
    let mut i: usize = 0;
    while i < order.len()
        invariant
            i <= order.len(),
            order.len() == reports.len(),
            forall|j: int| 0 <= j < order@.len() ==> #[trigger] order@[j] < reports@.len(),
            texts(lines@) == report_lines(reports@, order@, i as int),
        decreases order.len() - i,
    {
        let report = &reports[order[i]];
        let mut line = "  Node ".to_owned();
        push_hexadecimal(&mut line, report.node_id as u64);
        line.append(": state: ");
        line.append(show_state(report.state));
        line.append(", candidate: ");
        line.append(show_optional(&report.selected_candidate).as_str());
        line.append(", sent: ");
        push_decimal(&mut line, report.sent);
        line.append(", received: ");
        push_decimal(&mut line, report.received);
        push_line(&mut lines, line);
        i += 1;
    }
    lines
}

/// What is printed when a ping has been answered.
pub fn show_pong(latency_ms: u64) -> (line: String)
    ensures
        line@ == "Pong received, latency: "@ + decimal(latency_ms as int) + " ms"@,
{
    let mut line = "Pong received, latency: ".to_owned();
    push_decimal(&mut line, latency_ms);
    line.append(" ms");
    line
}

/// What is printed for an answer that is none.
pub fn show_unexpected(response: &CryonetUapi) -> (result: Option<String>)
    ensures
        match *response {
            CryonetUapi::GetLinks => result matches Some(t) && t@ == "Unexpected response: GetLinks"@,
            CryonetUapi::GetRoutes => result matches Some(t) && t@
                == "Unexpected response: GetRoutes"@,
            CryonetUapi::GetIgpRoutes => result matches Some(t) && t@
                == "Unexpected response: GetIgpRoutes"@,
            CryonetUapi::GetFullMeshPeers => result matches Some(t) && t@
                == "Unexpected response: GetFullMeshPeers"@,
            CryonetUapi::Ping(node) => result matches Some(t) && t@ == "Unexpected response: Ping("@
                + decimal(node as int) + ")"@,
            _ => result is None,
        },
{
    match response {
        CryonetUapi::GetLinks => Some("Unexpected response: GetLinks".to_owned()),
        CryonetUapi::GetRoutes => Some("Unexpected response: GetRoutes".to_owned()),
        CryonetUapi::GetIgpRoutes => Some("Unexpected response: GetIgpRoutes".to_owned()),
        CryonetUapi::GetFullMeshPeers => Some("Unexpected response: GetFullMeshPeers".to_owned()),
        CryonetUapi::Ping(node) => {
            let mut text = "Unexpected response: Ping(".to_owned();
            push_decimal(&mut text, *node as u64);
            text.append(")");
            Some(text)
        },
        _ => None,
    }
}

/// The place is within the order, and everything before it has a key that is not larger, everything
/// behind it one that is larger, where the order ascends.
proof fn lemma_rank_place(keys: Seq<i128>, order: Seq<usize>, key: i128)
    requires
        forall|i: int, j: int|
            0 <= i < j < order.len() ==> keys[#[trigger] order[i] as int] <= keys[
                #[trigger] order[j] as int],
    ensures
        0 <= rank_place(keys, order, key) <= order.len(),
        forall|i: int|
            0 <= i < rank_place(keys, order, key) ==> keys[#[trigger] order[i] as int] <= key,
        forall|i: int|
            rank_place(keys, order, key) <= i < order.len() ==> key < keys[
                #[trigger] order[i] as int],
    decreases order.len(),
{
    if order.len() > 0 && keys[order.last() as int] > key {
        let rest = order.drop_last();
        assert forall|i: int, j: int| 0 <= i < j < rest.len() implies keys[
            #[trigger] rest[i] as int] <= keys[#[trigger] rest[j] as int] by {
            assert(rest[i] == order[i] && rest[j] == order[j]);
        }
        lemma_rank_place(keys, rest, key);
        assert forall|i: int| 0 <= i < rank_place(keys, order, key) implies keys[
            #[trigger] order[i] as int] <= key by {
            assert(rest[i] == order[i]);
        }
        assert forall|i: int| rank_place(keys, order, key) <= i < order.len() implies key < keys[
            #[trigger] order[i] as int] by {
            if i < rest.len() {
                assert(rest[i] == order[i]);
            }
        }
    }
}

/// What is printed is in order: keys ascend along a ranking, and each index stands in it.
pub proof fn lemma_ranking_ascends(keys: Seq<i128>, n: int)
    requires
        0 <= n <= keys.len() <= usize::MAX,
    ensures
        ranking(keys, n).len() == n,
        forall|i: int, j: int|
            0 <= i < j < n ==> keys[#[trigger] ranking(keys, n)[i] as int] <= keys[
                #[trigger] ranking(keys, n)[j] as int],
        forall|k: usize| k < n ==> #[trigger] ranking(keys, n).contains(k),
    decreases n,
{
    if n > 0 {
        lemma_ranking_ascends(keys, n - 1);
        let before = ranking(keys, n - 1);
        let key = keys[n - 1];
        lemma_rank_place(keys, before, key);
        let p = rank_place(keys, before, key);
        let all = ranking(keys, n);
        assert(all == before.insert(p, (n - 1) as usize));
        assert forall|i: int, j: int| 0 <= i < j < n implies keys[#[trigger] all[i] as int] <= keys[
            #[trigger] all[j] as int] by {
            if j < p {
                assert(all[i] == before[i] && all[j] == before[j]);
            } else if i < p && j > p {
                assert(all[i] == before[i] && all[j] == before[j - 1]);
            } else if i > p {
                assert(all[i] == before[i - 1] && all[j] == before[j - 1]);
            } else if i == p {
                assert(all[j] == before[j - 1]);
            } else {
                assert(all[i] == before[i]);
            }
        }
        assert forall|k: usize| k < n implies #[trigger] all.contains(k) by {
            if k == n - 1 {
                assert(all[p] == k);
            } else {
                assert(before.contains(k));
                let m = choose|m: int| 0 <= m < before.len() && before[m] == k;
                if m < p {
                    assert(all[m] == k);
                } else {
                    assert(all[m + 1] == k);
                }
            }
        }
    }
}

/// Nodes are ranked by their addresses, routes by the time they have left, and connections by their age
/// with the oldest first.
pub proof fn lemma_ranks(
    nodes: Seq<NodeId>,
    routes: Seq<IgpRoute>,
    conns: Seq<ConnEntry>,
    peers: Seq<PeerEntry>,
    reports: Seq<PeerReport>,
    i: int,
    j: int,
)
    requires
        0 <= i,
        0 <= j,
    ensures
        node_ranks(nodes).len() == nodes.len(),
        i < nodes.len() && j < nodes.len() ==> (node_ranks(nodes)[i] < node_ranks(nodes)[j]
            <==> nodes[i] < nodes[j]),
        timeout_ranks(routes).len() == routes.len(),
        i < routes.len() && j < routes.len() ==> (timeout_ranks(routes)[i] < timeout_ranks(routes)[j]
            <==> routes[i].timeout_remaining_ms < routes[j].timeout_remaining_ms),
        age_ranks(conns).len() == conns.len(),
        i < conns.len() && j < conns.len() ==> (age_ranks(conns)[i] < age_ranks(conns)[j]
            <==> conns[i].conn.elapsed_ms > conns[j].conn.elapsed_ms),
        peer_ranks(peers).len() == peers.len(),
        i < peers.len() && j < peers.len() ==> (peer_ranks(peers)[i] < peer_ranks(peers)[j]
            <==> peers[i].node_id < peers[j].node_id),
        report_ranks(reports).len() == reports.len(),
        i < reports.len() && j < reports.len() ==> (report_ranks(reports)[i] < report_ranks(
            reports,
        )[j] <==> reports[i].node_id < reports[j].node_id),
{
}

/// Of links, routes and connections there is one line each, in the order given, behind a heading.
pub proof fn lemma_one_line_each(
    links: Seq<NodeId>,
    table: Map<NodeId, NodeId>,
    routes: Seq<IgpRoute>,
    conns: Seq<ConnEntry>,
    reports: Seq<PeerReport>,
    order: Seq<usize>,
    n: int,
    k: int,
)
    requires
        0 <= k < n,
    ensures
        link_lines(links, order, n).len() == n + 1,
        link_lines(links, order, n)[0] == "Links:"@,
        link_lines(links, order, n)[k + 1] == "  "@ + hexadecimal(links[order[k] as int] as int),
        route_lines(table, links, order, n).len() == n + 1,
        route_lines(table, links, order, n)[0] == "Routes:"@,
        route_lines(table, links, order, n)[k + 1] == "  "@ + hexadecimal(
            links[order[k] as int] as int,
        ) + " -> "@ + hexadecimal(table[links[order[k] as int]] as int),
        igp_route_lines(routes, order, n).len() == n + 1,
        igp_route_lines(routes, order, n)[0] == "IGP Routes:"@,
        igp_route_lines(routes, order, n)[k + 1] == igp_route_line(routes[order[k] as int]),
        conn_lines(conns, order, n).len() == n,
        conn_lines(conns, order, n)[k] == conn_line(conns[order[k] as int]),
        report_lines(reports, order, n).len() == n + 1,
        report_lines(reports, order, n)[0] == "Full Mesh Peers:"@,
        report_lines(reports, order, n)[k + 1] == report_line(reports[order[k] as int]),
    decreases n,
{
    reveal_with_fuel(link_lines, 2);
    reveal_with_fuel(route_lines, 2);
    reveal_with_fuel(igp_route_lines, 2);
    reveal_with_fuel(conn_lines, 2);
    reveal_with_fuel(report_lines, 2);
    if k < n - 1 {
        lemma_one_line_each(links, table, routes, conns, reports, order, n - 1, k);
    } else if n > 1 {
        lemma_one_line_each(links, table, routes, conns, reports, order, n - 1, 0);
    }
}

/// Nodes with several connections are printed one after the other: a line with the address, then those
/// of the connections.
pub proof fn lemma_nodes_one_by_one(peers: Seq<PeerEntry>, order: Seq<usize>, n: int)
    requires
        0 < n <= order.len(),
        order[n - 1] < peers.len(),
    ensures
        ({
            let peer = peers[order[n - 1] as int];
            let before = peers_lines(peers, order, n - 1);
            let all = peers_lines(peers, order, n);
            &&& all.len() == before.len() + 1 + peer.conns@.len()
            &&& all.take(before.len() as int) == before
            &&& all[before.len() as int] == "  Node "@ + hexadecimal(peer.node_id as int) + ":"@
            &&& all.skip(before.len() as int + 1) == conn_lines(
                peer.conns@,
                ranking(age_ranks(peer.conns@), peer.conns@.len() as int),
                peer.conns@.len() as int,
            )
        }),
{
    let peer = peers[order[n - 1] as int];
    let before = peers_lines(peers, order, n - 1);
    let all = peers_lines(peers, order, n);
    let m = peer.conns@.len() as int;
    let ranked = ranking(age_ranks(peer.conns@), m);
    let lines = conn_lines(peer.conns@, ranked, m);
    if m > 0 {
        lemma_one_line_each(
            Seq::empty(),
            Map::empty(),
            Seq::empty(),
            peer.conns@,
            Seq::empty(),
            ranked,
            m,
            0,
        );
    }
    assert(all.take(before.len() as int) =~= before);
    assert(all.skip(before.len() as int + 1) =~= lines);
}

/// Before the first node there is the heading alone.
pub proof fn lemma_peers_heading(peers: Seq<PeerEntry>, order: Seq<usize>)
    ensures
        peers_lines(peers, order, 0) == seq!["Full Mesh Peers:"@],
{
}

/// Different states have different names.
pub proof fn lemma_state_names(a: ConnState, b: ConnState)
    ensures
        state_text(a) == state_text(b) <==> a == b,
        state_text(ConnState::Connected) == "Connected"@,
        state_text(ConnState::Connecting) == "Connecting"@,
        state_text(ConnState::Closed) == "Closed"@,
        state_text(ConnState::New) == "New"@,
        state_text(ConnState::Failed) == "Failed"@,
        state_text(ConnState::Disconnected) == "Disconnected"@,
{
    reveal_strlit("New");
    reveal_strlit("Connecting");
    reveal_strlit("Connected");
    reveal_strlit("Disconnected");
    reveal_strlit("Failed");
    reveal_strlit("Closed");
    assert("Failed"@[0] != "Closed"@[0]);
    assert("Connected"@.len() == 9);
    assert("Connecting"@.len() == 10);
    assert("Disconnected"@.len() == 12);
    assert("Failed"@.len() == 6);
    assert("Closed"@.len() == 6);
    assert("New"@.len() == 3);
}

/// A digit of an identifier is the same as elsewhere up to nine, and a small letter from there on.
pub proof fn lemma_small_digits(d: int)
    requires
        0 <= d < 16,
    ensures
        d < 10 ==> small_digit(d) as int == '0' as int + d,
        d >= 10 ==> small_digit(d) as int == 'a' as int + d - 10,
{
}

/// What is ranked last is put behind all whose keys are not larger, and before all others; so what has
/// equal keys stays in order.
pub proof fn lemma_equal_keys_stay_in_order(keys: Seq<i128>, n: int)
    requires
        0 < n <= keys.len() <= usize::MAX,
    ensures
        exists|p: int|
            {
                let before = ranking(keys, n - 1);
                &&& 0 <= p <= before.len()
                &&& ranking(keys, n) == #[trigger] ranking(keys, n - 1).insert(
                    p,
                    (n - 1) as usize,
                )
                &&& forall|i: int| 0 <= i < p ==> keys[#[trigger] before[i] as int] <= keys[n - 1]
                &&& forall|i: int|
                    p <= i < before.len() ==> keys[#[trigger] before[i] as int] > keys[n - 1]
            },
{
    let before = ranking(keys, n - 1);
    lemma_ranking_ascends(keys, n - 1);
    lemma_rank_place(keys, before, keys[n - 1]);
    assert(ranking(keys, n) == before.insert(
        rank_place(keys, before, keys[n - 1]),
        (n - 1) as usize,
    ));
}

} // verus!
