use swim_rs::protocol::messages::{CodecError, Message, PeerAddr};
use swim_rs::protocol::node::{
    choose_helpers, take_index, Membership, Node, OutgoingMessage, PeerState, PROBE_TIMEOUT,
    SUSPECT_TIMEOUT, TICK_INTERVAL,
};

const MS: u64 = 1_000_000;

fn addr(port: u16) -> PeerAddr {
    PeerAddr { v6: false, ip: 0x7f00_0001, port, flowinfo: 0, scope_id: 0 }
}

fn node_with(local: u16, peers: &[u16]) -> Node {
    let mut n = Node::new(addr(local), 0);
    for p in peers {
        n.ensure_member(addr(*p), 0);
    }
    n
}

fn drain(n: &mut Node) -> Vec<OutgoingMessage> {
    let mut out = Vec::new();
    while let Some(m) = n.next_outgoing() {
        out.push(m);
        n.outgoing_sent();
    }
    out
}

fn counts(n: &Node) -> (usize, usize, usize) {
    (
        n.count_by_state(PeerState::Active),
        n.count_by_state(PeerState::Suspect),
        n.count_by_state(PeerState::Dead),
    )
}

#[test]
fn new_node_is_empty() {
    let n = Node::new(addr(7001), 5);
    assert_eq!(n.local_addr, addr(7001));
    assert_eq!(n.members.self_seq, 0);
    assert!(n.members.members.is_empty());
    assert!(n.probes.is_empty());
    assert!(n.next_outgoing().is_none());
    assert_eq!(n.last_tick, 5);
    assert_eq!(n.metrics.max_samples, 1000);
}

#[test]
fn next_seq_counts_and_wraps() {
    let mut m = Membership::new();
    assert_eq!(m.next_seq(), 0);
    assert_eq!(m.next_seq(), 1);
    assert_eq!(m.self_seq, 2);
    m.self_seq = u32::MAX;
    assert_eq!(m.next_seq(), u32::MAX);
    assert_eq!(m.self_seq, 0);
}

#[test]
fn ensure_member_adds_once_and_never_self() {
    let mut n = Node::new(addr(1), 0);
    n.ensure_member(addr(1), 10);
    assert!(n.members.members.is_empty());
    n.ensure_member(addr(2), 10);
    n.ensure_member(addr(2), 20);
    assert_eq!(n.members.members.len(), 1);
    let e = n.members.members[0];
    assert_eq!(e.addr, addr(2));
    assert_eq!(e.member.state, PeerState::Active);
    assert_eq!(e.member.incarnation, 0);
    assert_eq!(e.member.last_state_change, 10);
    assert_eq!(n.members.find(addr(2)), Some(0));
    assert_eq!(n.members.find(addr(3)), None);
}

#[test]
fn state_changes_follow_the_rules() {
    let mut n = node_with(1, &[2]);
    n.mark_active(addr(2), 5);
    assert_eq!(n.members.members[0].member.last_state_change, 0);
    n.mark_suspect(addr(2), 10);
    assert_eq!(n.state_of_member(addr(2)), Some(PeerState::Suspect));
    assert_eq!(n.members.members[0].member.last_state_change, 10);
    n.mark_suspect(addr(2), 20);
    assert_eq!(n.members.members[0].member.last_state_change, 10);
    n.mark_dead(addr(2), 30);
    assert_eq!(n.state_of_member(addr(2)), Some(PeerState::Dead));
    n.mark_dead(addr(2), 40);
    assert_eq!(n.members.members[0].member.last_state_change, 30);
    n.mark_suspect(addr(2), 50);
    assert_eq!(n.state_of_member(addr(2)), Some(PeerState::Dead));
    n.mark_active(addr(2), 60);
    assert_eq!(n.state_of_member(addr(2)), Some(PeerState::Active));
    assert_eq!(n.members.members[0].member.last_state_change, 60);
    n.mark_suspect(addr(9), 70);
    n.mark_dead(addr(9), 70);
    assert_eq!(n.state_of_member(addr(9)), None);
    n.mark_active(addr(9), 80);
    assert_eq!(n.state_of_member(addr(9)), Some(PeerState::Active));
    n.mark_active(addr(1), 90);
    assert_eq!(n.state_of_member(addr(1)), None);
}

#[test]
fn counts_add_up_to_the_table_size() {
    let mut n = node_with(1, &[2, 3, 4, 5, 6]);
    n.mark_suspect(addr(3), 1);
    n.mark_suspect(addr(4), 1);
    n.mark_dead(addr(4), 2);
    assert_eq!(counts(&n), (3, 1, 1));
    let (a, s, d) = counts(&n);
    assert_eq!(a + s + d, n.members.members.len());
}

#[test]
fn send_ping_tracks_queues_and_counts() {
    let mut n = Node::new(addr(1), 0);
    n.join(addr(2), 7);
    n.send_ping(addr(3), 8);
    assert_eq!(n.members.self_seq, 2);
    assert_eq!(n.metrics.pings_sent, 2);
    assert_eq!(n.probes.len(), 2);
    assert_eq!(n.probes[0].seq, 0);
    assert_eq!(n.probes[0].target, addr(2));
    assert_eq!(n.probes[0].sent_at, 7);
    assert!(!n.probes[0].indirect_sent);
    assert_eq!(n.probes[1].seq, 1);
    assert!(n.members.members.is_empty());
    let out = drain(&mut n);
    assert_eq!(
        out,
        vec![
            OutgoingMessage { msg: Message::Ping { seq: 0, from: addr(1) }, target: addr(2) },
            OutgoingMessage { msg: Message::Ping { seq: 1, from: addr(1) }, target: addr(3) },
        ]
    );
}

#[test]
fn ping_is_answered_with_ack() {
    let mut n = Node::new(addr(1), 0);
    n.handle_message(Message::Ping { seq: 9, from: addr(2) }, 3);
    assert_eq!(n.state_of_member(addr(2)), Some(PeerState::Active));
    assert_eq!(
        drain(&mut n),
        vec![OutgoingMessage { msg: Message::Ack { seq: 9, from: addr(1) }, target: addr(2) }]
    );
}

#[test]
fn ping_req_is_passed_on() {
    let mut n = Node::new(addr(1), 0);
    n.handle_message(Message::PingReq { seq: 9, from: addr(2), target: addr(3) }, 3);
    assert_eq!(n.state_of_member(addr(2)), Some(PeerState::Active));
    assert_eq!(n.state_of_member(addr(3)), None);
    assert!(n.probes.is_empty());
    assert_eq!(
        drain(&mut n),
        vec![OutgoingMessage { msg: Message::Ping { seq: 9, from: addr(1) }, target: addr(3) }]
    );
}

#[test]
fn ack_records_round_trip_of_matching_probe() {
    let mut n = Node::new(addr(1), 0);
    n.send_ping(addr(2), 100);
    n.send_ping(addr(3), 100);
    n.handle_message(Message::Ack { seq: 0, from: addr(2) }, 350);
    assert_eq!(n.metrics.raw_samples(), vec![250]);
    assert_eq!(n.metrics.acks_received, 1);
    assert_eq!(n.probes.len(), 1);
    assert_eq!(n.probes[0].target, addr(3));
    assert_eq!(n.state_of_member(addr(2)), Some(PeerState::Active));
}

#[test]
fn ack_without_probe_records_nothing() {
    let mut n = Node::new(addr(1), 0);
    n.send_ping(addr(2), 100);
    n.handle_message(Message::Ack { seq: 5, from: addr(2) }, 350);
    n.handle_message(Message::Ack { seq: 0, from: addr(3) }, 350);
    assert_eq!(n.metrics.sample_count(), 0);
    assert_eq!(n.metrics.acks_received, 0);
    assert_eq!(n.probes.len(), 1);
    assert_eq!(n.state_of_member(addr(2)), Some(PeerState::Active));
    assert_eq!(n.state_of_member(addr(3)), Some(PeerState::Active));
}

#[test]
fn ack_from_own_address_adds_no_member() {
    let mut n = Node::new(addr(1), 0);
    n.handle_message(Message::Ack { seq: 0, from: addr(1) }, 1);
    n.handle_message(Message::Ping { seq: 0, from: addr(1) }, 1);
    n.handle_message(Message::PingReq { seq: 0, from: addr(1), target: addr(1) }, 1);
    assert!(n.members.members.is_empty());
}

#[test]
fn ack_before_send_time_counts_as_zero() {
    let mut n = Node::new(addr(1), 0);
    n.send_ping(addr(2), 100);
    n.handle_message(Message::Ack { seq: 0, from: addr(2) }, 50);
    assert_eq!(n.metrics.raw_samples(), vec![0]);
}

#[test]
fn take_index_swaps_the_last_in() {
    let mut v = vec![10usize, 11, 12, 13];
    assert_eq!(take_index(&mut v, 5), 11);
    assert_eq!(v, vec![10, 13, 12]);
    assert_eq!(take_index(&mut v, 2), 12);
    assert_eq!(v, vec![10, 13]);
    assert_eq!(take_index(&mut v, 0), 10);
    assert_eq!(take_index(&mut v, u32::MAX), 13);
    assert!(v.is_empty());
}

fn check_selection(eligible: u16) {
    let others: Vec<PeerAddr> = (0..eligible).map(|p| addr(100 + p)).collect();
    for _ in 0..50 {
        let sel = choose_helpers(&others);
        assert_eq!(sel.len(), (eligible as usize).min(3));
        for (i, a) in sel.iter().enumerate() {
            assert!(others.contains(a));
            assert!(!sel[..i].contains(a));
        }
    }
}

#[test]
fn helper_selection_with_no_candidate() {
    check_selection(0);
}

#[test]
fn helper_selection_with_one_candidate() {
    check_selection(1);
}

#[test]
fn helper_selection_with_two_candidates() {
    check_selection(2);
}

#[test]
fn helper_selection_with_three_candidates() {
    check_selection(3);
}

#[test]
fn helper_selection_with_many_candidates() {
    check_selection(4);
    check_selection(10);
}

#[test]
fn indirect_probes_go_to_active_members_other_than_target() {
    let mut n = node_with(1, &[2, 3, 4, 5, 6, 7]);
    n.mark_suspect(addr(3), 1);
    n.mark_dead(addr(4), 1);
    assert_eq!(n.eligible_helpers(addr(2)), vec![addr(5), addr(6), addr(7)]);
    assert_eq!(n.active_members(), vec![addr(2), addr(5), addr(6), addr(7)]);
    n.send_indirect_probes(addr(2), 77);
    let out = drain(&mut n);
    assert_eq!(out.len(), 3);
    for (i, m) in out.iter().enumerate() {
        assert_eq!(m.msg, Message::PingReq { seq: 77, from: addr(1), target: addr(2) });
        assert!([addr(5), addr(6), addr(7)].contains(&m.target));
        assert!(out[..i].iter().all(|o| o.target != m.target));
    }
    assert_eq!(n.members.self_seq, 0);
    assert!(n.probes.is_empty());
}

#[test]
fn indirect_probes_without_helpers_queue_nothing() {
    let mut n = node_with(1, &[2]);
    n.send_indirect_probes(addr(2), 1);
    assert!(n.next_outgoing().is_none());
}

#[test]
fn periodic_probe_picks_by_random_number() {
    let mut n = node_with(1, &[2, 3, 4]);
    n.mark_suspect(addr(3), 0);
    n.probe_member_with(5, 10);
    assert_eq!(n.probes.len(), 1);
    assert_eq!(n.probes[0].target, addr(4));
    n.probe_member_with(7, 11);
    assert_eq!(n.probes.len(), 1);
    assert!(n.has_probe_for(addr(4)));
    assert!(!n.has_probe_for(addr(2)));
    n.probe_member_with(4, 12);
    assert_eq!(n.probes.len(), 2);
    assert_eq!(n.probes[1].target, addr(2));
    assert_eq!(n.metrics.pings_sent, 2);
}

#[test]
fn periodic_probe_without_active_members_does_nothing() {
    let mut n = node_with(1, &[2]);
    n.mark_suspect(addr(2), 0);
    n.probe_member_with(0, 10);
    n.probe_random_member(10);
    assert!(n.probes.is_empty());
    assert_eq!(n.members.self_seq, 0);
}

#[test]
fn random_probe_pings_some_active_member() {
    let mut n = node_with(1, &[2, 3]);
    n.probe_random_member(10);
    assert_eq!(n.probes.len(), 1);
    assert!(n.probes[0].target == addr(2) || n.probes[0].target == addr(3));
    assert_eq!(n.probes[0].seq, 0);
    assert_eq!(n.members.self_seq, 1);
}

#[test]
fn tick_is_due_exactly_at_the_deadline() {
    let n = Node::new(addr(1), 1_000);
    assert_eq!(n.time_until_tick(1_000), TICK_INTERVAL);
    assert_eq!(n.time_until_tick(1_000 + 400 * MS), 600 * MS);
    assert!(!n.tick_due(1_000 + TICK_INTERVAL - 1));
    assert_eq!(n.time_until_tick(1_000 + TICK_INTERVAL - 1), 1);
    assert!(n.tick_due(1_000 + TICK_INTERVAL));
    assert_eq!(n.time_until_tick(1_000 + TICK_INTERVAL), 0);
    assert_eq!(n.time_until_tick(1_000 + 5 * TICK_INTERVAL), 0);
    assert_eq!(n.time_until_tick(0), TICK_INTERVAL);
}

#[test]
fn advance_runs_the_pass_only_when_due() {
    let mut n = node_with(1, &[2]);
    assert!(!n.advance(TICK_INTERVAL - 1));
    assert!(n.probes.is_empty());
    assert_eq!(n.last_tick, 0);
    assert!(n.advance(TICK_INTERVAL));
    assert_eq!(n.last_tick, TICK_INTERVAL);
    assert_eq!(n.probes.len(), 1);
    assert_eq!(n.probes[0].target, addr(2));
    assert_eq!(n.probes[0].sent_at, TICK_INTERVAL);
}

#[test]
fn probe_timeouts_promote_then_suspect() {
    let mut n = node_with(1, &[2, 3]);
    n.send_ping(addr(3), 0);
    drain(&mut n);
    n.check_probe_timeouts(PROBE_TIMEOUT);
    assert!(!n.probes[0].indirect_sent);
    assert!(n.next_outgoing().is_none());
    n.check_probe_timeouts(PROBE_TIMEOUT + 1);
    assert_eq!(
        drain(&mut n),
        vec![OutgoingMessage {
            msg: Message::PingReq { seq: 0, from: addr(1), target: addr(3) },
            target: addr(2)
        }]
    );
    assert_eq!(n.probes.len(), 1);
    assert!(n.probes[0].indirect_sent);
    assert_eq!(n.probes[0].sent_at, PROBE_TIMEOUT + 1);
    assert_eq!(n.state_of_member(addr(3)), Some(PeerState::Active));
    n.check_probe_timeouts(2 * PROBE_TIMEOUT + 1);
    assert_eq!(n.probes.len(), 1);
    n.check_probe_timeouts(2 * PROBE_TIMEOUT + 2);
    assert!(n.probes.is_empty());
    assert_eq!(n.state_of_member(addr(3)), Some(PeerState::Suspect));
    assert_eq!(n.metrics.timeouts, 1);
    assert_eq!(n.members.members[1].member.last_state_change, 2 * PROBE_TIMEOUT + 2);
}

#[test]
fn suspects_die_after_the_grace_period() {
    let mut n = node_with(1, &[2, 3]);
    n.mark_suspect(addr(2), 100);
    n.check_suspect_timeouts(100 + SUSPECT_TIMEOUT);
    assert_eq!(n.state_of_member(addr(2)), Some(PeerState::Suspect));
    n.check_suspect_timeouts(101 + SUSPECT_TIMEOUT);
    assert_eq!(n.state_of_member(addr(2)), Some(PeerState::Dead));
    assert_eq!(n.state_of_member(addr(3)), Some(PeerState::Active));
    assert_eq!(n.members.members[0].member.last_state_change, 101 + SUSPECT_TIMEOUT);
}

fn deliver(from: &mut Node, to: &mut Node, now: u64) -> usize {
    let mut n = 0;
    for m in drain(from) {
        if m.target == to.local_addr {
            let bytes = m.msg.to_bytes().unwrap();
            to.receive(&bytes, now).unwrap();
            n += 1;
        }
    }
    n
}

#[test]
fn join_makes_both_nodes_members_of_each_other() {
    let mut a = Node::new(addr(7001), 0);
    let mut b = Node::new(addr(7002), 0);
    b.join(addr(7001), 0);
    assert_eq!(deliver(&mut b, &mut a, MS), 1);
    assert_eq!(a.state_of_member(addr(7002)), Some(PeerState::Active));
    assert_eq!(deliver(&mut a, &mut b, 2 * MS), 1);
    assert_eq!(b.state_of_member(addr(7001)), Some(PeerState::Active));
    assert_eq!(b.metrics.raw_samples(), vec![2 * MS]);
    assert!(b.probes.is_empty());
}

#[test]
fn steady_state_collects_round_trips() {
    let mut a = Node::new(addr(7001), 0);
    let mut b = Node::new(addr(7002), 0);
    b.join(addr(7001), 0);
    deliver(&mut b, &mut a, MS);
    deliver(&mut a, &mut b, 2 * MS);
    let mut now = 0;
    for _ in 0..10 {
        now += TICK_INTERVAL;
        assert!(a.advance(now));
        assert!(b.advance(now));
        deliver(&mut a, &mut b, now + MS);
        deliver(&mut b, &mut a, now + MS);
        deliver(&mut a, &mut b, now + 2 * MS);
        deliver(&mut b, &mut a, now + 2 * MS);
    }
    let sa = a.metrics.stats().unwrap();
    let sb = b.metrics.stats().unwrap();
    assert!(sa.sample_count >= 8);
    assert!(sb.sample_count >= 8);
    assert!(sa.mean < 50 * MS);
    assert!(sb.mean < 50 * MS);
    assert_eq!(sa.mean, MS);
    assert_eq!(a.count_by_state(PeerState::Active), 1);
}

#[test]
fn silent_member_becomes_suspect_then_dead_then_returns() {
    let mut a = node_with(7001, &[7002, 7003]);
    let c = addr(7003);
    a.probe_member_with(1, 0);
    assert_eq!(a.probes[0].target, c);
    drain(&mut a);
    let t1 = 501 * MS;
    a.check_probe_timeouts(t1);
    assert_eq!(
        drain(&mut a),
        vec![OutgoingMessage {
            msg: Message::PingReq { seq: 0, from: addr(7001), target: c },
            target: addr(7002)
        }]
    );
    let t2 = t1 + 501 * MS;
    a.check_probe_timeouts(t2);
    assert_eq!(a.state_of_member(c), Some(PeerState::Suspect));
    assert!(a.probes.is_empty());
    a.check_suspect_timeouts(t2 + 3_000 * MS);
    assert_eq!(a.state_of_member(c), Some(PeerState::Suspect));
    a.check_suspect_timeouts(t2 + 3_001 * MS);
    assert_eq!(a.state_of_member(c), Some(PeerState::Dead));
    a.check_probe_timeouts(t2 + 4_000 * MS);
    assert_eq!(a.state_of_member(c), Some(PeerState::Dead));
    let t3 = t2 + 5_000 * MS;
    a.handle_message(Message::Ping { seq: 0, from: c }, t3);
    assert_eq!(a.state_of_member(c), Some(PeerState::Dead));
    assert_eq!(
        drain(&mut a),
        vec![OutgoingMessage { msg: Message::Ack { seq: 0, from: addr(7001) }, target: c }]
    );
    a.handle_message(Message::Ack { seq: 0, from: c }, t3 + MS);
    assert_eq!(a.state_of_member(c), Some(PeerState::Active));
    assert_eq!(counts(&a), (2, 0, 0));
}

#[test]
fn garbage_datagram_changes_nothing() {
    let mut a = node_with(7001, &[7002]);
    a.send_ping(addr(7002), 0);
    let members = a.members.members.clone();
    let probes = a.probes.clone();
    let queued = a.send_queue.len();
    assert_eq!(a.receive(&[0xde, 0xad, 0xbe, 0xef], 10), Err(CodecError::Decode));
    assert_eq!(a.receive(&[], 10), Err(CodecError::Decode));
    assert_eq!(a.dispatch(Err(CodecError::Malformed), 10), Err(CodecError::Malformed));
    assert_eq!(a.members.members, members);
    assert_eq!(a.probes, probes);
    assert_eq!(a.send_queue.len(), queued);
    assert_eq!(a.metrics.sample_count(), 0);
    assert_eq!(a.receive(&Message::Ack { seq: 0, from: addr(7002) }.to_bytes().unwrap(), 20), Ok(()));
    assert_eq!(a.metrics.raw_samples(), vec![20]);
}

#[test]
fn next_datagram_encodes_the_head_of_the_queue() {
    let mut n = Node::new(addr(1), 0);
    assert!(n.next_datagram().is_none());
    n.send_ping(addr(2), 0);
    n.queue_send(Message::Ack { seq: 4, from: addr(1) }, addr(3));
    let (bytes, target) = n.next_datagram().unwrap();
    assert_eq!(target, addr(2));
    assert_eq!(Message::from_bytes(&bytes.unwrap()), Ok(Message::Ping { seq: 0, from: addr(1) }));
    n.outgoing_sent();
    let (bytes, target) = n.next_datagram().unwrap();
    assert_eq!(target, addr(3));
    assert_eq!(Message::from_bytes(&bytes.unwrap()), Ok(Message::Ack { seq: 4, from: addr(1) }));
    n.outgoing_sent();
    n.outgoing_sent();
    assert!(n.next_datagram().is_none());
}

#[test]
fn well_formedness_is_checked() {
    let mut n = node_with(1, &[2, 3]);
    assert!(n.is_well_formed());
    let row = n.members.members[0];
    n.members.members.push(row);
    assert!(!n.is_well_formed());
    n.members.members.pop();
    assert!(n.is_well_formed());
    n.local_addr = addr(3);
    assert!(!n.is_well_formed());
}

#[test]
fn states_are_ordered() {
    assert_eq!(PeerState::Active.severity(), 0);
    assert_eq!(PeerState::Suspect.severity(), 1);
    assert_eq!(PeerState::Dead.severity(), 2);
}

#[test]
fn sequence_numbers_of_probes_increase_by_one() {
    let mut n = Node::new(addr(1), 0);
    n.members.self_seq = u32::MAX - 1;
    n.send_ping(addr(2), 0);
    n.send_ping(addr(2), 0);
    n.send_ping(addr(2), 0);
    let seqs: Vec<u32> = n.probes.iter().map(|p| p.seq).collect();
    assert_eq!(seqs, vec![u32::MAX - 1, u32::MAX, 0]);
    assert_eq!(n.members.self_seq, 1);
}

#[test]
fn two_failed_probes_to_one_target_ask_twice_and_keep_both() {
    let mut n = node_with(1, &[2, 3]);
    n.send_ping(addr(3), 0);
    n.send_ping(addr(3), 1);
    drain(&mut n);
    let t = PROBE_TIMEOUT + 2;
    n.check_probe_timeouts(t);
    let out = drain(&mut n);
    assert_eq!(out.len(), 2);
    assert_eq!(out[0].msg, Message::PingReq { seq: 0, from: addr(1), target: addr(3) });
    assert_eq!(out[1].msg, Message::PingReq { seq: 1, from: addr(1), target: addr(3) });
    assert_eq!(n.probes.len(), 2);
    assert!(n.probes.iter().all(|p| p.indirect_sent && p.sent_at == t));
    n.check_probe_timeouts(t + PROBE_TIMEOUT + 1);
    assert!(n.probes.is_empty());
    assert_eq!(n.metrics.timeouts, 2);
    assert_eq!(n.state_of_member(addr(3)), Some(PeerState::Suspect));
}
