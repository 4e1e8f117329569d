//! Sequence numbers and the routing protocol.

use cryonet::igp::model::{IgpAction, IgpParameters, IgpPayload, Route};
use cryonet::igp::state::IGPState;
use cryonet::igp::{
    average_cost, find_best, generate_retraction, generate_update, judge, list_destinations,
    sum_metric, Igp, IgpEvent,
};
use cryonet::igp::model::{Decision, RouteRequest};
use cryonet::mesh::LinkError;
use cryonet::seq::{SeqMetric, SeqNo, UNREACHABLE};

const SECOND: u64 = 1_000_000_000;
const MS: u64 = 1_000_000;

fn metric(seq: u16, metric: u32) -> SeqMetric {
    SeqMetric { seq: SeqNo(seq), metric }
}

fn route(dst: u32, from: u32, seq: u16, announced: u32, computed: u32) -> Route {
    Route {
        metric: metric(seq, announced),
        computed_metric: computed,
        dst,
        from,
        timeout: 56 * SECOND,
        selected: false,
    }
}

fn update(igp: &mut Igp, src: u32, dst: u32, seq: u16, m: u32, now: u64) -> Vec<IgpAction> {
    igp.handle_packet(Some((src, IgpPayload::Update { metric: metric(seq, m), dst })), now)
}

fn measured(link: u32, rtt_ms: u64, igp: &mut Igp, at: u64) {
    let sent = igp.hello(&vec![link], at);
    let seq = match sent[0] {
        IgpAction::SendLink { payload: IgpPayload::Hello { seq }, .. } => seq,
        _ => panic!("no hello"),
    };
    igp.handle_packet(Some((link, IgpPayload::HelloReply { seq })), at + rtt_ms * MS);
}

#[test]
fn sequence_numbers_wrap() {
    assert_eq!(SeqNo(0xffff) + SeqNo(1), SeqNo(0));
    assert_eq!(SeqNo(0) - SeqNo(1), SeqNo(0xffff));
    assert_eq!(SeqNo(7) + SeqNo(9) - SeqNo(9), SeqNo(7));
    let mut seq = SeqNo(0xfffe);
    seq += SeqNo(3);
    assert_eq!(seq, SeqNo(1));
    seq -= SeqNo(2);
    assert_eq!(seq, SeqNo(0xffff));
    assert!(SeqNo(0xffff) < SeqNo(0));
    assert!(SeqNo(0) > SeqNo(0xffff));
    assert!(SeqNo(0) < SeqNo(0x7fff));
    assert!(SeqNo(5) <= SeqNo(5));
}

#[test]
fn opposite_sequence_numbers_are_both_newer() {
    assert!(SeqNo(0) > SeqNo(0x8000));
    assert!(SeqNo(0x8000) > SeqNo(0));
}

#[test]
fn feasibility() {
    assert!(metric(1, 500).feasible(&metric(0, 10)));
    assert!(metric(3, 10).feasible(&metric(3, 10)));
    assert!(metric(3, 9).feasible(&metric(3, 10)));
    assert!(!metric(3, 11).feasible(&metric(3, 10)));
    assert!(metric(3, UNREACHABLE).feasible(&metric(3, 10)));
    assert!(!metric(2, 1).feasible(&metric(3, 10)));
}

#[test]
fn updates_and_retractions() {
    let mut r = route(9, 4, 3, 100, 250);
    r.selected = true;
    assert_eq!(generate_update(&r), IgpPayload::Update { metric: metric(3, 250), dst: 9 });
    assert_eq!(generate_retraction(9), IgpPayload::Update { metric: metric(0, UNREACHABLE), dst: 9 });
    assert_eq!(
        r.describe(),
        "to 9 via 4, advertised metric 100, seq 3, metric 250, selected: true"
    );
}

#[test]
fn metrics_saturate() {
    assert_eq!(sum_metric(1, 2), 3);
    assert_eq!(sum_metric(UNREACHABLE, 1), UNREACHABLE);
    assert_eq!(sum_metric(UNREACHABLE - 1, 1), UNREACHABLE);
    assert_eq!(sum_metric(UNREACHABLE - 2, 1), UNREACHABLE - 1);
}

#[test]
fn costs_are_averaged() {
    assert_eq!(average_cost(UNREACHABLE, 120), 120);
    assert_eq!(average_cost(1000, 2000), 1164);
    assert_eq!(average_cost(2000, 1000), 1836);
    assert_eq!(average_cost(500, 500), 500);
}

#[test]
fn newest_then_cheapest_route_is_best() {
    let routes = vec![
        route(1, 10, 1, 5, 5),
        route(2, 10, 9, 1, 1),
        route(1, 11, 2, 90, 90),
        route(1, 12, 2, 80, 80),
        route(1, 13, 2, 80, 80),
    ];
    assert_eq!(find_best(&routes, 1), Some(3));
    assert_eq!(find_best(&routes, 2), Some(1));
    assert_eq!(find_best(&routes, 3), None);
    assert_eq!(list_destinations(&routes), vec![1, 2]);
}

#[test]
fn every_decision() {
    let good = route(1, 2, 5, 100, 100);
    let bad = route(1, 2, 5, UNREACHABLE, UNREACHABLE);
    let worse = route(1, 2, 5, 101, 101);
    let bound = Some(metric(5, 100));
    assert_eq!(judge(&bad, None, None, 0, 1000), Decision::Withdraw);
    assert_eq!(judge(&good, None, None, 0, 1000), Decision::Adopt);
    assert_eq!(judge(&good, bound, None, 0, 1000), Decision::Select { announce: false });
    assert_eq!(
        judge(&good, Some(metric(4, 1101)), None, 0, 1000),
        Decision::Select { announce: true }
    );
    assert_eq!(judge(&worse, bound, None, 0, 1000), Decision::Ask { seq: SeqNo(6) });
    assert_eq!(judge(&bad, bound, None, 0, 1000), Decision::Ask { seq: SeqNo(6) });
    let pending = RouteRequest { seq: SeqNo(6), expiry: 50 };
    assert_eq!(judge(&worse, bound, Some(&pending), 49, 1000), Decision::Suppress);
    assert_eq!(judge(&worse, bound, Some(&pending), 50, 1000), Decision::Ask { seq: SeqNo(6) });
}

#[test]
fn usual_parameters() {
    let igp = Igp::new(1);
    assert_eq!(
        igp.parameters(),
        IgpParameters {
            hello_interval: 4 * SECOND,
            dump_interval: 16 * SECOND,
            gc_interval: 60 * SECOND,
            route_timeout: 56 * SECOND,
            source_timeout: 180 * SECOND,
            seqno_request_timeout: 8 * SECOND,
            diameter: 64,
            update_threshold: 1000,
        }
    );
}

#[test]
fn hello_and_first_reply() {
    let mut igp = Igp::new(1);
    let actions = igp.hello(&vec![2], 0);
    assert_eq!(
        actions,
        vec![IgpAction::SendLink { link: 2, payload: IgpPayload::Hello { seq: SeqNo(0) } }]
    );
    let actions = igp.hello(&vec![2], SECOND);
    assert_eq!(
        actions,
        vec![IgpAction::SendLink { link: 2, payload: IgpPayload::Hello { seq: SeqNo(1) } }]
    );
    // a reply to the hello before the last one counts for nothing
    let stale = igp.handle_packet(Some((2, IgpPayload::HelloReply { seq: SeqNo(0) })), 2 * SECOND);
    assert_eq!(stale, vec![]);
    let stranger = igp.handle_packet(Some((7, IgpPayload::HelloReply { seq: SeqNo(0) })), SECOND);
    assert_eq!(stranger, vec![]);
    let first = igp.handle_packet(Some((2, IgpPayload::HelloReply { seq: SeqNo(1) })), 2 * SECOND);
    assert_eq!(first, vec![IgpAction::SendLink { link: 2, payload: IgpPayload::RouteDump }]);
}

#[test]
fn hello_is_answered() {
    let mut igp = Igp::new(1);
    assert_eq!(
        igp.handle_packet(Some((2, IgpPayload::Hello { seq: SeqNo(9) })), 0),
        vec![IgpAction::SendLink { link: 2, payload: IgpPayload::HelloReply { seq: SeqNo(9) } }]
    );
}

#[test]
fn route_is_adopted_then_selected() {
    let mut igp = Igp::new(1);
    measured(2, 20, &mut igp, 0);
    let actions = update(&mut igp, 2, 9, 4, 1000, SECOND);
    assert_eq!(
        actions,
        vec![
            IgpAction::SetRoute { dst: 9, next_hop: 2 },
            IgpAction::Broadcast { payload: IgpPayload::Update { metric: metric(4, 1120), dst: 9 } },
        ]
    );
    assert!(!igp.get_routes()[0].selected);
    let actions = update(&mut igp, 2, 9, 4, 900, 2 * SECOND);
    assert_eq!(actions, vec![IgpAction::SetRoute { dst: 9, next_hop: 2 }]);
    let routes = igp.get_routes();
    assert_eq!(routes.len(), 1);
    assert!(routes[0].selected);
    assert_eq!(routes[0].computed_metric, 1020);
    assert_eq!(routes[0].timeout, 58 * SECOND);
}

#[test]
fn announcement_without_measured_link() {
    let mut igp = Igp::new(1);
    update(&mut igp, 2, 9, 4, 1000, 0);
    assert_eq!(igp.get_routes()[0].computed_metric, UNREACHABLE - 1);
}

#[test]
fn updates_about_this_node_are_ignored() {
    let mut igp = Igp::new(1);
    assert_eq!(update(&mut igp, 2, 1, 4, 1000, 0), vec![]);
    assert_eq!(igp.get_routes().len(), 0);
}

#[test]
fn infeasible_announcement_is_not_followed() {
    let mut igp = Igp::new(1);
    update(&mut igp, 2, 9, 4, 1000, 0);
    update(&mut igp, 2, 9, 4, 1000, 1);
    assert!(igp.get_routes()[0].selected);
    // a worse metric under the same number, from the selected neighbour and from another
    assert_eq!(update(&mut igp, 2, 9, 4, 1001, 2), vec![]);
    assert_eq!(update(&mut igp, 3, 9, 4, 1001, 2), vec![]);
    assert_eq!(igp.get_routes().len(), 1);
    assert_eq!(igp.get_routes()[0].metric, metric(4, 1000));
}

#[test]
fn retraction_asks_for_a_newer_number_once() {
    let mut igp = Igp::new(1);
    update(&mut igp, 2, 9, 4, 1000, 0);
    update(&mut igp, 2, 9, 4, 1000, 1);
    let ask = IgpAction::Broadcast {
        payload: IgpPayload::SequenceRequest { seq: SeqNo(5), dst: 9, ttl: 64 },
    };
    assert_eq!(
        update(&mut igp, 2, 9, 4, UNREACHABLE, 2),
        vec![IgpAction::RemoveRoute { dst: 9 }, ask]
    );
    assert!(!igp.get_routes()[0].selected);
    assert_eq!(
        update(&mut igp, 2, 9, 4, UNREACHABLE, 3),
        vec![IgpAction::RemoveRoute { dst: 9 }]
    );
    // the newer number arrives: it is announced, and followed
    let actions = update(&mut igp, 2, 9, 5, 500, 4);
    assert_eq!(
        actions,
        vec![
            IgpAction::Broadcast {
                payload: IgpPayload::Update { metric: metric(5, UNREACHABLE - 1), dst: 9 },
            },
            IgpAction::SetRoute { dst: 9, next_hop: 2 },
        ]
    );
}

#[test]
fn route_request_is_answered_or_retracted() {
    let mut igp = Igp::new(1);
    assert_eq!(
        igp.handle_packet(Some((2, IgpPayload::RouteRequest { dst: 9 })), 0),
        vec![IgpAction::Broadcast { payload: generate_retraction(9) }]
    );
    igp.dump(None, 0);
    assert_eq!(
        igp.handle_packet(Some((2, IgpPayload::RouteRequest { dst: 1 })), 1),
        vec![IgpAction::Broadcast { payload: IgpPayload::Update { metric: metric(0, 0), dst: 1 } }]
    );
}

#[test]
fn dump_announces_this_node() {
    let mut igp = Igp::new(1);
    let payload = IgpPayload::Update { metric: metric(0, 0), dst: 1 };
    assert_eq!(
        igp.dump(None, 0),
        vec![IgpAction::SetRoute { dst: 1, next_hop: 1 }, IgpAction::Broadcast { payload }]
    );
    assert_eq!(
        igp.handle_packet(Some((5, IgpPayload::RouteDump)), 1),
        vec![IgpAction::SetRoute { dst: 1, next_hop: 1 }, IgpAction::SendLink { link: 5, payload }]
    );
}

#[test]
fn own_sequence_number_is_raised_on_request() {
    let mut igp = Igp::new(1);
    igp.dump(None, 0);
    let request = IgpPayload::SequenceRequest { seq: SeqNo(1), dst: 1, ttl: 3 };
    let answer = IgpAction::Broadcast {
        payload: IgpPayload::Update { metric: metric(1, 0), dst: 1 },
    };
    assert_eq!(igp.handle_packet(Some((2, request)), 1), vec![answer]);
    // the number is there now, so it is not raised again
    assert_eq!(igp.handle_packet(Some((2, request)), 2), vec![answer]);
}

#[test]
fn sequence_request_is_handed_on_once_and_with_less_ttl() {
    let mut igp = Igp::new(1);
    for from in [2u32, 3, 4] {
        update(&mut igp, from, 9, 4, 1000 - from, from as u64);
    }
    update(&mut igp, 4, 9, 4, 996, 9);
    let request = IgpPayload::SequenceRequest { seq: SeqNo(7), dst: 9, ttl: 5 };
    let actions = igp.handle_packet(Some((4, request)), 10);
    assert_eq!(actions.len(), 1);
    match actions[0] {
        IgpAction::SendLink { link, payload } => {
            assert_ne!(link, 4);
            assert_eq!(payload, IgpPayload::SequenceRequest { seq: SeqNo(7), dst: 9, ttl: 4 });
        }
        _ => panic!("not handed on"),
    }
    assert_eq!(igp.handle_packet(Some((3, request)), 11), vec![]);
    let spent = IgpPayload::SequenceRequest { seq: SeqNo(8), dst: 9, ttl: 0 };
    assert_eq!(igp.handle_packet(Some((4, spent)), 12), vec![]);
    let unknown = IgpPayload::SequenceRequest { seq: SeqNo(8), dst: 77, ttl: 9 };
    assert_eq!(igp.handle_packet(Some((4, unknown)), 12), vec![]);
}

#[test]
fn expired_route_is_asked_for_then_removed() {
    let mut igp = Igp::new(1);
    update(&mut igp, 2, 9, 4, 1000, 0);
    update(&mut igp, 2, 9, 4, 1000, 1);
    let actions = igp.gc(57 * SECOND);
    assert_eq!(
        actions[0],
        IgpAction::SendLink { link: 2, payload: IgpPayload::RouteRequest { dst: 9 } }
    );
    assert_eq!(actions[1], IgpAction::RemoveRoute { dst: 9 });
    let routes = igp.get_routes();
    assert_eq!(routes[0].metric.metric, UNREACHABLE);
    assert!(!routes[0].selected);
    assert!(routes[0].timeout > 57 * SECOND);
    igp.gc(120 * SECOND);
    assert_eq!(igp.get_routes().len(), 0);
}

#[test]
fn lost_link_makes_routes_costly() {
    let mut igp = Igp::new(1);
    measured(2, 0, &mut igp, 0);
    update(&mut igp, 2, 9, 4, 1000, 0);
    assert_eq!(igp.get_routes()[0].computed_metric, 1100);
    igp.select(IgpEvent::LinkDown { link: 2 }, 1);
    assert_eq!(igp.get_routes()[0].computed_metric, UNREACHABLE);
    assert_eq!(
        igp.select(IgpEvent::LinkUp { link: 2 }, 2),
        vec![IgpAction::SetRoute { dst: 9, next_hop: 2 }]
    );
}

#[test]
fn events_reach_their_handlers() {
    let mut igp = Igp::new(1);
    assert_eq!(igp.select(IgpEvent::Other, 0), vec![]);
    assert_eq!(igp.select(IgpEvent::Closed, 0), vec![IgpAction::Stop]);
    assert_eq!(igp.select(IgpEvent::Packet { packet: None }, 0), vec![IgpAction::Stop]);
    assert_eq!(igp.select(IgpEvent::HelloTick { links: vec![4] }, 0).len(), 1);
    assert_eq!(igp.select(IgpEvent::DumpTick, 0).len(), 2);
    assert_eq!(igp.select(IgpEvent::GcTick, 1).len(), 1);
}

#[test]
fn three_nodes_in_a_row_learn_each_other() {
    let mut nodes = vec![Igp::new(0), Igp::new(1), Igp::new(2)];
    let links: Vec<Vec<u32>> = vec![vec![1], vec![0, 2], vec![1]];
    let mut pending: Vec<(usize, Vec<IgpAction>)> = Vec::new();
    for i in 0..3 {
        for _ in 0..2 {
            let actions = nodes[i].dump(None, 0);
            pending.push((i, actions));
        }
    }
    let mut now: u64 = 1;
    while let Some((from, actions)) = pending.pop() {
        for action in actions {
            now += 1;
            match action {
                IgpAction::SendLink { link, payload } => {
                    let next = nodes[link as usize].handle_packet(Some((from as u32, payload)), now);
                    pending.push((link as usize, next));
                }
                IgpAction::Broadcast { payload } => {
                    for link in &links[from] {
                        let next = nodes[*link as usize].handle_packet(Some((from as u32, payload)), now);
                        pending.push((*link as usize, next));
                    }
                }
                _ => {}
            }
        }
        assert!(now < 10_000);
    }
    assert!(nodes[0].get_routes().iter().any(|r| r.dst == 2 && r.from == 1));
    assert!(nodes[2].get_routes().iter().any(|r| r.dst == 0 && r.from == 1));
}

#[test]
fn lean_protocol_selects_and_relays() {
    let mut state = IGPState::new(1, 56 * SECOND, 8 * SECOND, 64, 1000);
    let up = |seq: u16, m: u32| IgpPayload::Update { metric: metric(seq, m), dst: 9 };
    assert_eq!(
        state.handle_packet(2, &up(4, 5000), 0),
        (vec![IgpAction::SetRoute { dst: 9, next_hop: 2 }], None)
    );
    assert_eq!(
        state.handle_packet(2, &up(4, 100), 1).0,
        vec![
            IgpAction::SetRoute { dst: 9, next_hop: 2 },
            IgpAction::Broadcast { payload: up(4, 100) },
        ]
    );
    assert!(state.routes[0].selected);
    assert_eq!(state.export(), vec![IgpAction::SetRoute { dst: 9, next_hop: 2 }]);
    assert_eq!(state.dump(), vec![IgpAction::Broadcast { payload: up(4, 100) }]);
    assert_eq!(
        state.handle_packet(3, &IgpPayload::RouteRequest { dst: 7 }, 2),
        (vec![], None)
    );
    assert_eq!(
        state.handle_packet(3, &IgpPayload::RouteRequest { dst: 9 }, 2).0,
        vec![IgpAction::Broadcast { payload: up(4, UNREACHABLE - 1) }]
    );
    assert_eq!(state.handle_packet(3, &IgpPayload::RouteDump, 2), (vec![], None));
}

#[test]
fn lean_protocol_measures_without_hop_cost() {
    let mut state = IGPState::new(1, 56 * SECOND, 8 * SECOND, 64, 1000);
    let sent = state.send_hello(&vec![2], 0);
    assert_eq!(
        sent,
        vec![IgpAction::SendLink { link: 2, payload: IgpPayload::Hello { seq: SeqNo(0) } }]
    );
    let reply = IgpPayload::HelloReply { seq: SeqNo(0) };
    assert_eq!(state.handle_packet(2, &reply, 30 * MS), (vec![], None));
    assert_eq!(state.costs[&2].cost, 30);
    assert_eq!(state.handle_packet(2, &reply, 1030 * MS), (vec![], None));
    assert_eq!(state.costs[&2].cost, (836 * 30 + 164 * 1030) / 1000);
}

#[test]
fn lean_protocol_stops_at_a_pending_request() {
    let mut state = IGPState::new(1, 56 * SECOND, 8 * SECOND, 64, 1000);
    for dst in [8u32, 9] {
        for _ in 0..2 {
            state.handle_packet(2, &IgpPayload::Update { metric: metric(4, 10), dst }, 0);
        }
    }
    let gone = IgpPayload::Update { metric: metric(4, UNREACHABLE), dst: 8 };
    let first = state.handle_packet(2, &gone, 1).0;
    assert!(first.contains(&IgpAction::Broadcast {
        payload: IgpPayload::SequenceRequest { seq: SeqNo(5), dst: 8, ttl: 64 },
    }));
    assert!(first.contains(&IgpAction::SetRoute { dst: 9, next_hop: 2 }));
    let second = state.gc(2);
    assert_eq!(second, vec![IgpAction::RemoveRoute { dst: 8 }]);
}

#[test]
fn lean_protocol_announces_what_was_asked_for() {
    let mut state = IGPState::new(1, 56 * SECOND, 8 * SECOND, 64, 1000);
    for _ in 0..2 {
        state.handle_packet(2, &IgpPayload::Update { metric: metric(4, 10), dst: 9 }, 0);
    }
    let request = IgpPayload::SequenceRequest { seq: SeqNo(6), dst: 9, ttl: 2 };
    assert_eq!(state.handle_packet(3, &request, 1).0, vec![IgpAction::SendLink {
        link: 2,
        payload: IgpPayload::SequenceRequest { seq: SeqNo(6), dst: 9, ttl: 1 },
    }]);
    assert_eq!(state.handle_packet(4, &request, 2), (vec![], None));
    let newer = IgpPayload::Update { metric: metric(6, 7), dst: 9 };
    let announcement = IgpPayload::Update { metric: metric(6, UNREACHABLE - 1), dst: 9 };
    assert_eq!(state.handle_packet(2, &newer, 3), (vec![], Some(announcement)));
    // where the announcement does not go out, no route is selected
    assert_eq!(state.announced(Err(LinkError::Closed), 4), Err(LinkError::Closed));
    assert_eq!(state.sources[&9], metric(4, 10));
    assert_eq!(
        state.announced(Ok(()), 5),
        Ok(vec![IgpAction::SetRoute { dst: 9, next_hop: 2 }])
    );
    assert_eq!(state.sources[&9], metric(6, 7));
}

#[test]
fn lean_protocol_reacts_to_events() {
    let mut state = IGPState::new(1, 56 * SECOND, 8 * SECOND, 64, 1000);
    let up = IgpPayload::Update { metric: metric(4, 10), dst: 9 };
    for _ in 0..2 {
        state.start(IgpEvent::Packet { packet: Some((2, up)) }, 0);
    }
    let set = (vec![IgpAction::SetRoute { dst: 9, next_hop: 2 }], None);
    assert_eq!(state.start(IgpEvent::LinkUp { link: 2 }, 1), set);
    assert_eq!(state.start(IgpEvent::LinkDown { link: 2 }, 1), (vec![], None));
    assert_eq!(state.start(IgpEvent::Other, 1), (vec![], None));
    assert_eq!(
        state.start(IgpEvent::DumpTick, 1).0,
        vec![IgpAction::Broadcast { payload: up }]
    );
    assert_eq!(state.start(IgpEvent::HelloTick { links: vec![2] }, 1).0.len(), 1);
    assert_eq!(state.start(IgpEvent::GcTick, 1), set);
    assert_eq!(state.start(IgpEvent::Closed, 1), (vec![IgpAction::Stop], None));
    assert_eq!(state.start(IgpEvent::Packet { packet: None }, 1).0, vec![IgpAction::Stop]);
}
