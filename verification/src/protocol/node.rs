//! The failure detector: membership table, probe tracker, send queue and
//! the periodic maintenance pass, driven with explicit clock readings.
//!
//! Every duration and clock reading is a number of nanoseconds.

use crate::protocol::messages::CodecError;
use crate::protocol::messages::Message;
use crate::protocol::messages::PeerAddr;
use crate::protocol::metrics::bumped;
use crate::protocol::metrics::ring_after;
use crate::protocol::metrics::LatencyMetrics;
use rand::RngCore;
use std::collections::VecDeque;
use vstd::prelude::*;

verus! {

/// Time between two maintenance passes.
pub const TICK_INTERVAL: u64 = 1_000_000_000;

/// Time after which an unanswered probe has failed.
pub const PROBE_TIMEOUT: u64 = 500_000_000;

/// Time a member stays suspect before it is declared dead.
pub const SUSPECT_TIMEOUT: u64 = 3_000_000_000;

/// Number of helpers asked to probe a silent member.
pub const INDIRECT_PROBE_COUNT: usize = 3;

/// Number of round-trip times a node keeps.
pub const SAMPLE_CAPACITY: usize = 1000;

/// What a node believes of a peer.
#[derive(Debug, Clone, Copy, PartialEq, Eq, Structural)]
pub enum PeerState {
    Active,
    Suspect,
    Dead,
}

/// The record kept for a peer.
#[derive(Debug, Clone, Copy, PartialEq, Eq, Structural)]
pub struct Member {
    pub state: PeerState,
    pub incarnation: u32,
    pub last_state_change: u64,
}

/// A row of the membership table.
#[derive(Debug, Clone, Copy, PartialEq, Eq, Structural)]
pub struct MemberEntry {
    pub addr: PeerAddr,
    pub member: Member,
}

/// A probe that was sent and not yet answered.
#[derive(Debug, Clone, Copy, PartialEq, Eq, Structural)]
pub struct PendingProbe {
    pub seq: u32,
    pub target: PeerAddr,
    pub sent_at: u64,
    /// Whether helpers were already asked to probe the target.
    pub indirect_sent: bool,
}

/// A message waiting to be sent.
#[derive(Debug, Clone, Copy, PartialEq, Eq, Structural)]
pub struct OutgoingMessage {
    pub msg: Message,
    pub target: PeerAddr,
}

/// The membership table and the local sequence counter.
pub struct Membership {
    pub self_seq: u32,
    pub members: Vec<MemberEntry>,
}

/// All the state of one node.
pub struct Node {
    pub local_addr: PeerAddr,
    pub members: Membership,
    pub probes: Vec<PendingProbe>,
    pub send_queue: VecDeque<OutgoingMessage>,
    pub last_tick: u64,
    pub metrics: LatencyMetrics,
}

/// Time from `then` to `now`, zero if `now` lies before `then`.
pub open spec fn elapsed(now: u64, then: u64) -> u64 {
    if now >= then {
        (now - then) as u64
    } else {
        0
    }
}

/// The sequence number that follows `seq`.
pub open spec fn seq_after(seq: u32) -> u32 {
    if seq == u32::MAX {
        0
    } else {
        (seq + 1) as u32
    }
}

/// Whether the table has a row for `addr`.
pub open spec fn has_member(s: Seq<MemberEntry>, addr: PeerAddr) -> bool {
    exists|i: int| 0 <= i < s.len() && (#[trigger] s[i]).addr == addr
}

/// A row of `addr` in the table, if it has one.
pub open spec fn row_of(s: Seq<MemberEntry>, addr: PeerAddr) -> int {
    choose|i: int| 0 <= i < s.len() && (#[trigger] s[i]).addr == addr
}

/// The state of `addr` in the table, if it is a member.
pub open spec fn state_of(s: Seq<MemberEntry>, addr: PeerAddr) -> Option<PeerState> {
    if has_member(s, addr) {
        Some(s[row_of(s, addr)].member.state)
    } else {
        None
    }
}

/// No address has two rows.
pub open spec fn distinct_rows(s: Seq<MemberEntry>) -> bool {
    forall|i: int, j: int| 0 <= i < j < s.len() ==> (#[trigger] s[i]).addr != (#[trigger] s[j]).addr
}

/// The row of a peer first heard of at `now`.
pub open spec fn fresh_row(addr: PeerAddr, now: u64) -> MemberEntry {
    MemberEntry {
        addr,
        member: Member { state: PeerState::Active, incarnation: 0, last_state_change: now },
    }
}

/// Row `e` moved to `state` at `now`.
pub open spec fn moved(e: MemberEntry, state: PeerState, now: u64) -> MemberEntry {
    MemberEntry {
        addr: e.addr,
        member: Member { state, incarnation: e.member.incarnation, last_state_change: now },
    }
}

/// The table after `addr` was ensured to be a member.
pub open spec fn with_member(
    s: Seq<MemberEntry>,
    local: PeerAddr,
    addr: PeerAddr,
    now: u64,
) -> Seq<MemberEntry> {
    if addr != local && !has_member(s, addr) {
        s.push(fresh_row(addr, now))
    } else {
        s
    }
}

/// The table after fresh evidence that `addr` is alive.
pub open spec fn with_active(
    s: Seq<MemberEntry>,
    local: PeerAddr,
    addr: PeerAddr,
    now: u64,
) -> Seq<MemberEntry> {
    if has_member(s, addr) {
        let i = row_of(s, addr);
        if s[i].member.state != PeerState::Active {
            s.update(i, moved(s[i], PeerState::Active, now))
        } else {
            s
        }
    } else {
        with_member(s, local, addr, now)
    }
}

/// The table after a probe chain to `addr` failed: only an active member
/// becomes suspect.
pub open spec fn with_suspect(s: Seq<MemberEntry>, addr: PeerAddr, now: u64) -> Seq<MemberEntry> {
    if has_member(s, addr) && s[row_of(s, addr)].member.state == PeerState::Active {
        s.update(row_of(s, addr), moved(s[row_of(s, addr)], PeerState::Suspect, now))
    } else {
        s
    }
}

/// The table after `addr` was declared dead.
pub open spec fn with_dead(s: Seq<MemberEntry>, addr: PeerAddr, now: u64) -> Seq<MemberEntry> {
    if has_member(s, addr) && s[row_of(s, addr)].member.state != PeerState::Dead {
        s.update(row_of(s, addr), moved(s[row_of(s, addr)], PeerState::Dead, now))
    } else {
        s
    }
}

/// Number of rows among the first `k` that are in `state`.
pub open spec fn count_to(s: Seq<MemberEntry>, state: PeerState, k: int) -> int
    decreases k,
{
    if k <= 0 {
        0
    } else {
        count_to(s, state, k - 1) + if s[k - 1].member.state == state {
            1int
        } else {
            0int
        }
    }
}

/// Number of members in `state`.
pub open spec fn count_in(s: Seq<MemberEntry>, state: PeerState) -> int {
    count_to(s, state, s.len() as int)
}

/// The table is valid for a node at `local`: no address has two rows, and
/// `local` has none.
pub open spec fn valid_table(s: Seq<MemberEntry>, local: PeerAddr) -> bool {
    distinct_rows(s) && !has_member(s, local)
}

proof fn lemma_counts_to(s: Seq<MemberEntry>, k: int)
    requires
        0 <= k <= s.len(),
    ensures
        count_to(s, PeerState::Active, k) + count_to(s, PeerState::Suspect, k) + count_to(
            s,
            PeerState::Dead,
            k,
        ) == k,
    decreases k,
{
    if k > 0 {
        lemma_counts_to(s, k - 1);
    }
}

/// Every member is in exactly one of the three states: the three counts
/// add up to the size of the table.
pub proof fn lemma_counts_partition(s: Seq<MemberEntry>)
    ensures
        count_in(s, PeerState::Active) + count_in(s, PeerState::Suspect) + count_in(
            s,
            PeerState::Dead,
        ) == s.len(),
{
    lemma_counts_to(s, s.len() as int);
}

/// A dead member is not made suspect, neither by a failed probe chain nor
/// by being declared dead again; only fresh evidence of life changes its
/// state, and then to active.
pub proof fn lemma_dead_stays_dead(s: Seq<MemberEntry>, local: PeerAddr, addr: PeerAddr, now: u64)
    requires
        valid_table(s, local),
        state_of(s, addr) == Some(PeerState::Dead),
    ensures
        with_suspect(s, addr, now) == s,
        with_dead(s, addr, now) == s,
        with_member(s, local, addr, now) == s,
        state_of(with_active(s, local, addr, now), addr) == Some(PeerState::Active),
{
    let i = row_of(s, addr);
    let t = with_active(s, local, addr, now);
    assert(t[i].addr == addr);
    lemma_row_unique(t, addr, i);
}

/// In a table without double rows, the row of an address is the only one
/// that holds it.
pub proof fn lemma_row_unique(s: Seq<MemberEntry>, addr: PeerAddr, i: int)
    requires
        distinct_rows(s),
        0 <= i < s.len(),
        s[i].addr == addr,
    ensures
        has_member(s, addr),
        row_of(s, addr) == i,
{
    let j = row_of(s, addr);
    if j < i {
        assert(s[j].addr != s[i].addr);
    } else if i < j {
        assert(s[i].addr != s[j].addr);
    }
}

/// Fresh evidence of life makes any peer but the node itself an active
/// member, whatever it was before.
pub proof fn lemma_active_after_evidence(
    s: Seq<MemberEntry>,
    local: PeerAddr,
    addr: PeerAddr,
    now: u64,
)
    requires
        valid_table(s, local),
        addr != local,
    ensures
        valid_table(with_active(s, local, addr, now), local),
        state_of(with_active(s, local, addr, now), addr) == Some(PeerState::Active),
{
    let t = with_active(s, local, addr, now);
    lemma_moves_keep_valid(s, local, addr, now);
    if has_member(s, addr) {
        let i = row_of(s, addr);
        assert(t[i].addr == addr);
        lemma_row_unique(t, addr, i);
    } else {
        let i = s.len() as int;
        assert(t[i].addr == addr);
        lemma_row_unique(t, addr, i);
    }
}

/// Each of the four changes keeps the table valid.
pub proof fn lemma_moves_keep_valid(s: Seq<MemberEntry>, local: PeerAddr, addr: PeerAddr, now: u64)
    requires
        valid_table(s, local),
    ensures
        valid_table(with_member(s, local, addr, now), local),
        valid_table(with_active(s, local, addr, now), local),
        valid_table(with_suspect(s, addr, now), local),
        valid_table(with_dead(s, addr, now), local),
{
    lemma_push_keeps_valid(s, local, addr, now);
    if has_member(s, addr) {
        let i = row_of(s, addr);
        lemma_move_keeps_valid(s, local, i, PeerState::Active, now);
        lemma_move_keeps_valid(s, local, i, PeerState::Suspect, now);
        lemma_move_keeps_valid(s, local, i, PeerState::Dead, now);
    }
}

proof fn lemma_push_keeps_valid(s: Seq<MemberEntry>, local: PeerAddr, addr: PeerAddr, now: u64)
    requires
        valid_table(s, local),
    ensures
        valid_table(with_member(s, local, addr, now), local),
{
    let t = with_member(s, local, addr, now);
    if addr != local && !has_member(s, addr) {
        assert forall|i: int, j: int| 0 <= i < j < t.len() implies (#[trigger] t[i]).addr != (
        #[trigger] t[j]).addr by {
            if j == s.len() {
                assert(s[i].addr != addr);
            } else {
                assert(s[i].addr != s[j].addr);
            }
        }
        if has_member(t, local) {
            let k = row_of(t, local);
            if k < s.len() {
                assert(s[k].addr == local);
            }
        }
    }
}

/// Moving one row to another state keeps the table valid.
pub proof fn lemma_move_keeps_valid(
    s: Seq<MemberEntry>,
    local: PeerAddr,
    i: int,
    state: PeerState,
    now: u64,
)
    requires
        valid_table(s, local),
        0 <= i < s.len(),
    ensures
        valid_table(s.update(i, moved(s[i], state, now)), local),
{
    let t = s.update(i, moved(s[i], state, now));
    assert forall|a: int, b: int| 0 <= a < b < t.len() implies (#[trigger] t[a]).addr != (
    #[trigger] t[b]).addr by {
        assert(s[a].addr != s[b].addr);
    }
    if has_member(t, local) {
        let k = row_of(t, local);
        assert(s[k].addr == local);
    }
}

impl Membership {
    /// An empty table with the sequence counter at zero.
    pub fn new() -> (m: Self)
        ensures
            m.self_seq == 0,
            m.members@ == Seq::<MemberEntry>::empty(),
    {
        Self { self_seq: 0, members: Vec::new() }
    }

    /// Hands out the sequence counter and moves it on by one, from the
    /// largest value back to zero.
    pub fn next_seq(&mut self) -> (seq: u32)
        ensures
            seq == old(self).self_seq,
            final(self).self_seq == seq_after(old(self).self_seq),
            final(self).self_seq as int == (old(self).self_seq + 1) % 0x1_0000_0000,
            final(self).members == old(self).members,
    {
        let seq = self.self_seq;
        self.self_seq = self.self_seq.wrapping_add(1);
        seq
    }

    /// The row of `addr`, if it is a member.
    pub fn find(&self, addr: PeerAddr) -> (r: Option<usize>)
        ensures
            r is Some <==> has_member(self.members@, addr),
            r matches Some(i) ==> i < self.members@.len() && self.members@[i as int].addr == addr
                && forall|j: int| 0 <= j < i ==> (#[trigger] self.members@[j]).addr != addr,
    {
        let mut i: usize = 0;
        while i < self.members.len()
            invariant
                i <= self.members.len(),
                forall|j: int| 0 <= j < i ==> (#[trigger] self.members@[j]).addr != addr,
            decreases self.members.len() - i,
        {
            if self.members[i].addr == addr {
                return Some(i);
            }
            i += 1;
        }
        None
    }

    /// Moves row `i` to `state` at `now`.
    fn move_row(&mut self, i: usize, state: PeerState, now: u64)
        requires
            i < old(self).members@.len(),
        ensures
            final(self).members@ == old(self).members@.update(
                i as int,
                moved(old(self).members@[i as int], state, now),
            ),
            final(self).self_seq == old(self).self_seq,
    {
        let e = self.members[i];
        self.members.set(
            i,
            MemberEntry {
                addr: e.addr,
                member: Member {
                    state,
                    incarnation: e.member.incarnation,
                    last_state_change: now,
                },
            },
        );
    }
}


/// The state of a node as mathematical values.
pub struct NodeView {
    pub local_addr: PeerAddr,
    pub self_seq: u32,
    pub table: Seq<MemberEntry>,
    pub probes: Seq<PendingProbe>,
    pub queue: Seq<OutgoingMessage>,
    pub last_tick: u64,
    pub ring: Seq<u64>,
    pub capacity: usize,
    pub started_at: u64,
    pub pings_sent: u64,
    pub acks_received: u64,
    pub timeouts: u64,
}

impl NodeView {
    /// The membership table is valid for this node.
    pub open spec fn wf(self) -> bool {
        valid_table(self.table, self.local_addr)
    }
}

impl View for Node {
    type V = NodeView;

    open spec fn view(&self) -> NodeView {
        NodeView {
            local_addr: self.local_addr,
            self_seq: self.members.self_seq,
            table: self.members.members@,
            probes: self.probes@,
            queue: self.send_queue@,
            last_tick: self.last_tick,
            ring: self.metrics.ring(),
            capacity: self.metrics.capacity(),
            started_at: self.metrics.started_at(),
            pings_sent: self.metrics.pings_sent,
            acks_received: self.metrics.acks_received,
            timeouts: self.metrics.timeouts,
        }
    }
}

/// Whether probe `p` is the one that an acknowledgement of `seq` from
/// `from` answers.
pub open spec fn answers(p: PendingProbe, seq: u32, from: PeerAddr) -> bool {
    p.seq == seq && p.target == from
}

/// The first of the first `k` probes that the acknowledgement answers, or
/// -1 if there is none.
pub open spec fn first_answered(s: Seq<PendingProbe>, seq: u32, from: PeerAddr, k: int) -> int
    decreases k,
{
    if k <= 0 {
        -1
    } else {
        let before = first_answered(s, seq, from, k - 1);
        if before >= 0 {
            before
        } else if answers(s[k - 1], seq, from) {
            k - 1
        } else {
            -1
        }
    }
}

/// The first `k` probes without those that the acknowledgement answers.
pub open spec fn unanswered(s: Seq<PendingProbe>, seq: u32, from: PeerAddr, k: int) -> Seq<
    PendingProbe,
>
    decreases k,
{
    if k <= 0 {
        Seq::empty()
    } else if answers(s[k - 1], seq, from) {
        unanswered(s, seq, from, k - 1)
    } else {
        unanswered(s, seq, from, k - 1).push(s[k - 1])
    }
}

/// Whether one of the first `k` probes goes to `target`.
pub open spec fn probing(s: Seq<PendingProbe>, target: PeerAddr, k: int) -> bool
    decreases k,
{
    if k <= 0 {
        false
    } else {
        probing(s, target, k - 1) || s[k - 1].target == target
    }
}

/// The state after `addr` was ensured to be a member.
pub open spec fn ensure_member_step(v: NodeView, addr: PeerAddr, now: u64) -> NodeView {
    NodeView { table: with_member(v.table, v.local_addr, addr, now), ..v }
}

/// The state after fresh evidence that `addr` is alive.
pub open spec fn mark_active_step(v: NodeView, addr: PeerAddr, now: u64) -> NodeView {
    NodeView { table: with_active(v.table, v.local_addr, addr, now), ..v }
}

/// The state after a probe chain to `addr` failed.
pub open spec fn mark_suspect_step(v: NodeView, addr: PeerAddr, now: u64) -> NodeView {
    NodeView { table: with_suspect(v.table, addr, now), ..v }
}

/// The state after `addr` was declared dead.
pub open spec fn mark_dead_step(v: NodeView, addr: PeerAddr, now: u64) -> NodeView {
    NodeView { table: with_dead(v.table, addr, now), ..v }
}

/// The state after `msg` was queued for `target`.
pub open spec fn queue_step(v: NodeView, msg: Message, target: PeerAddr) -> NodeView {
    NodeView { queue: v.queue.push(OutgoingMessage { msg, target }), ..v }
}

/// The state after a direct ping to `target` was sent at `now`: the
/// sequence counter moves on by one, the probe is tracked, the ping is
/// queued and counted.
pub open spec fn send_ping_step(v: NodeView, target: PeerAddr, now: u64) -> NodeView {
    NodeView {
        self_seq: seq_after(v.self_seq),
        probes: v.probes.push(
            PendingProbe { seq: v.self_seq, target, sent_at: now, indirect_sent: false },
        ),
        queue: v.queue.push(
            OutgoingMessage { msg: Message::Ping { seq: v.self_seq, from: v.local_addr }, target },
        ),
        pings_sent: bumped(v.pings_sent),
        ..v
    }
}

/// The state after an acknowledgement of `seq` from `from` arrived at
/// `now`: the round trip of the first probe it answers is recorded, every
/// probe it answers is dropped, and `from` is active.
pub open spec fn ack_step(v: NodeView, seq: u32, from: PeerAddr, now: u64) -> NodeView {
    let i = first_answered(v.probes, seq, from, v.probes.len() as int);
    let measured = if i >= 0 {
        NodeView {
            ring: ring_after(v.ring, v.capacity as int, elapsed(now, v.probes[i].sent_at)),
            acks_received: bumped(v.acks_received),
            ..v
        }
    } else {
        v
    };
    mark_active_step(
        NodeView { probes: unanswered(v.probes, seq, from, v.probes.len() as int), ..measured },
        from,
        now,
    )
}

/// The state after `msg` arrived at `now`.
pub open spec fn handle_step(v: NodeView, msg: Message, now: u64) -> NodeView {
    match msg {
        Message::Ping { seq, from } => queue_step(
            ensure_member_step(v, from, now),
            Message::Ack { seq, from: v.local_addr },
            from,
        ),
        Message::Ack { seq, from } => ack_step(v, seq, from, now),
        Message::PingReq { seq, from, target } => queue_step(
            ensure_member_step(v, from, now),
            Message::Ping { seq, from: v.local_addr },
            target,
        ),
    }
}

/// No message makes the node a member of its own table.
pub proof fn lemma_handle_keeps_valid(v: NodeView, msg: Message, now: u64)
    requires
        v.wf(),
    ensures
        handle_step(v, msg, now).wf(),
        !has_member(handle_step(v, msg, now).table, v.local_addr),
{
    match msg {
        Message::Ping { seq, from } => {
            lemma_moves_keep_valid(v.table, v.local_addr, from, now);
        },
        Message::Ack { seq, from } => {
            lemma_moves_keep_valid(v.table, v.local_addr, from, now);
        },
        Message::PingReq { seq, from, target } => {
            lemma_moves_keep_valid(v.table, v.local_addr, from, now);
        },
    }
}

/// After an acknowledgement from any peer but the node itself, that peer
/// is an active member, whatever it was before.
pub proof fn lemma_ack_makes_active(v: NodeView, seq: u32, from: PeerAddr, now: u64)
    requires
        v.wf(),
        from != v.local_addr,
    ensures
        state_of(handle_step(v, Message::Ack { seq, from }, now).table, from) == Some(
            PeerState::Active,
        ),
{
    lemma_active_after_evidence(v.table, v.local_addr, from, now);
}

/// An acknowledgement adds a round-trip time only if a probe with its
/// sequence number was sent to its sender and is still tracked; the
/// sample is the time since that probe was sent. Without such a probe the
/// samples and the count of acknowledgements stay as they are.
pub proof fn lemma_sample_has_probe(v: NodeView, seq: u32, from: PeerAddr, now: u64)
    ensures
        ({
            let w = handle_step(v, Message::Ack { seq, from }, now);
            let i = first_answered(v.probes, seq, from, v.probes.len() as int);
            &&& -1 <= i < v.probes.len()
            &&& i >= 0 ==> answers(v.probes[i], seq, from) && w.ring == ring_after(
                v.ring,
                v.capacity as int,
                elapsed(now, v.probes[i].sent_at),
            )
            &&& i < 0 ==> w.ring == v.ring && w.acks_received == v.acks_received && forall|j: int|
                0 <= j < v.probes.len() ==> !answers(#[trigger] v.probes[j], seq, from)
        }),
{
    lemma_first_answered(v.probes, seq, from, v.probes.len() as int);
}

proof fn lemma_first_answered(s: Seq<PendingProbe>, seq: u32, from: PeerAddr, k: int)
    requires
        0 <= k <= s.len(),
    ensures
        -1 <= first_answered(s, seq, from, k) < k,
        first_answered(s, seq, from, k) >= 0 ==> answers(
            s[first_answered(s, seq, from, k)],
            seq,
            from,
        ),
        first_answered(s, seq, from, k) < 0 ==> forall|j: int|
            0 <= j < k ==> !answers(#[trigger] s[j], seq, from),
    decreases k,
{
    if k > 0 {
        lemma_first_answered(s, seq, from, k - 1);
    }
}

/// A message other than an acknowledgement leaves the state of every
/// member as it is; it can only add its sender as a new, active member.
pub proof fn lemma_only_ack_revives(v: NodeView, msg: Message, now: u64, addr: PeerAddr)
    requires
        v.wf(),
        !(msg is Ack),
        has_member(v.table, addr),
    ensures
        state_of(handle_step(v, msg, now).table, addr) == state_of(v.table, addr),
{
    let w = handle_step(v, msg, now);
    let i = row_of(v.table, addr);
    lemma_handle_keeps_valid(v, msg, now);
    assert(w.table[i] == v.table[i]);
    lemma_row_unique(w.table, addr, i);
}

impl Node {
    /// The membership table is valid: no address has two rows, and the
    /// node's own address has none.
    pub open spec fn wf(&self) -> bool {
        self@.wf()
    }

    /// A node at `local_addr` that knows no peer, made at `now`.
    pub fn new(local_addr: PeerAddr, now: u64) -> (n: Self)
        ensures
            n.wf(),
            n@ == (NodeView {
                local_addr,
                self_seq: 0,
                table: Seq::empty(),
                probes: Seq::empty(),
                queue: Seq::empty(),
                last_tick: now,
                ring: Seq::empty(),
                capacity: SAMPLE_CAPACITY,
                started_at: now,
                pings_sent: 0,
                acks_received: 0,
                timeouts: 0,
            }),
    {
        Self {
            local_addr,
            members: Membership::new(),
            probes: Vec::new(),
            send_queue: VecDeque::new(),
            last_tick: now,
            metrics: LatencyMetrics::new(SAMPLE_CAPACITY, now),
        }
    }

    /// Sends the first ping to a seed peer.
    pub fn join(&mut self, target: PeerAddr, now: u64)
        requires
            old(self).wf(),
        ensures
            final(self).wf(),
            final(self)@ == send_ping_step(old(self)@, target, now),
    {
        self.send_ping(target, now);
    }

    /// Sends a direct ping to `target` and tracks it as a pending probe.
    pub fn send_ping(&mut self, target: PeerAddr, now: u64)
        requires
            old(self).wf(),
        ensures
            final(self).wf(),
            final(self)@ == send_ping_step(old(self)@, target, now),
    {
        let seq = self.members.next_seq();
        self.probes.push(PendingProbe { seq, target, sent_at: now, indirect_sent: false });
        self.queue_send(Message::Ping { seq, from: self.local_addr }, target);
        self.metrics.record_ping_sent();
    }

    /// Appends a message to the send queue.
    pub fn queue_send(&mut self, msg: Message, target: PeerAddr)
        ensures
            final(self)@ == queue_step(old(self)@, msg, target),
    {
        self.send_queue.push_back(OutgoingMessage { msg, target });
    }

    /// The message that is sent next, if any is queued.
    pub fn next_outgoing(&self) -> (r: Option<OutgoingMessage>)
        ensures
            r == if self@.queue.len() > 0 {
                Some(self@.queue[0])
            } else {
                None
            },
    {
        if self.send_queue.len() > 0 {
            Some(self.send_queue[0])
        } else {
            None
        }
    }

    /// The datagram that is sent next, if any is queued: the bytes of
    /// the message at the head of the queue, or the reason why it has
    /// none, and where it goes.
    pub fn next_datagram(&self) -> (r: Option<(Result<Vec<u8>, CodecError>, PeerAddr)>)
        ensures
            r is None <==> self@.queue.len() == 0,
            r matches Some((bytes, target)) ==> target == self@.queue[0].target && match bytes {
                Ok(b) => self@.queue[0].msg.encoded() == Some(b@),
                Err(e) => e == CodecError::Encode && self@.queue[0].msg.encoded() is None,
            },
    {
        if self.send_queue.len() > 0 {
            let head = self.send_queue[0];
            Some((head.msg.to_bytes(), head.target))
        } else {
            None
        }
    }

    /// Drops the head of the send queue, once it was sent.
    pub fn outgoing_sent(&mut self)
        ensures
            final(self)@ == (NodeView {
                queue: if old(self)@.queue.len() > 0 {
                    old(self)@.queue.subrange(1, old(self)@.queue.len() as int)
                } else {
                    old(self)@.queue
                },
                ..old(self)@
            }),
    {
        self.send_queue.pop_front();
    }

    /// Adds `addr` as an active member unless it is the node itself or a
    /// member already.
    pub fn ensure_member(&mut self, addr: PeerAddr, now: u64)
        requires
            old(self).wf(),
        ensures
            final(self).wf(),
            final(self)@ == ensure_member_step(old(self)@, addr, now),
    {
        proof {
            lemma_moves_keep_valid(self@.table, self.local_addr, addr, now);
        }
        if addr != self.local_addr && self.members.find(addr).is_none() {
            self.members.members.push(
                MemberEntry {
                    addr,
                    member: Member {
                        state: PeerState::Active,
                        incarnation: 0,
                        last_state_change: now,
                    },
                },
            );
        }
    }

    /// Makes `addr` active: a member that is suspect or dead becomes
    /// active at `now`, an active one is left alone, an unknown peer is
    /// added.
    pub fn mark_active(&mut self, addr: PeerAddr, now: u64)
        requires
            old(self).wf(),
        ensures
            final(self).wf(),
            final(self)@ == mark_active_step(old(self)@, addr, now),
    {
        proof {
            lemma_moves_keep_valid(self@.table, self.local_addr, addr, now);
        }
        match self.members.find(addr) {
            Some(i) => {
                proof {
                    lemma_row_unique(self@.table, addr, i as int);
                }
                if self.members.members[i].member.state != PeerState::Active {
                    self.members.move_row(i, PeerState::Active, now);
                }
            },
            None => {
                self.ensure_member(addr, now);
            },
        }
    }

    /// Makes an active member suspect; a suspect, dead or unknown peer is
    /// left alone.
    pub fn mark_suspect(&mut self, addr: PeerAddr, now: u64)
        requires
            old(self).wf(),
        ensures
            final(self).wf(),
            final(self)@ == mark_suspect_step(old(self)@, addr, now),
    {
        proof {
            lemma_moves_keep_valid(self@.table, self.local_addr, addr, now);
        }
        match self.members.find(addr) {
            Some(i) => {
                proof {
                    lemma_row_unique(self@.table, addr, i as int);
                }
                if self.members.members[i].member.state == PeerState::Active {
                    self.members.move_row(i, PeerState::Suspect, now);
                }
            },
            None => {},
        }
    }

    /// Declares a member dead; a dead or unknown peer is left alone.
    pub fn mark_dead(&mut self, addr: PeerAddr, now: u64)
        requires
            old(self).wf(),
        ensures
            final(self).wf(),
            final(self)@ == mark_dead_step(old(self)@, addr, now),
    {
        proof {
            lemma_moves_keep_valid(self@.table, self.local_addr, addr, now);
        }
        match self.members.find(addr) {
            Some(i) => {
                proof {
                    lemma_row_unique(self@.table, addr, i as int);
                }
                if self.members.members[i].member.state != PeerState::Dead {
                    self.members.move_row(i, PeerState::Dead, now);
                }
            },
            None => {},
        }
    }

    /// The state of `addr`, if it is a member.
    pub fn state_of_member(&self, addr: PeerAddr) -> (r: Option<PeerState>)
        requires
            self.wf(),
        ensures
            r == state_of(self@.table, addr),
    {
        match self.members.find(addr) {
            Some(i) => {
                proof {
                    lemma_row_unique(self@.table, addr, i as int);
                }
                Some(self.members.members[i].member.state)
            },
            None => None,
        }
    }

    /// The number of members in `state`.
    pub fn count_by_state(&self, state: PeerState) -> (n: usize)
        ensures
            n == count_in(self@.table, state),
    {
        let mut n: usize = 0;
        let mut i: usize = 0;
        while i < self.members.members.len()
            invariant
                i <= self.members.members.len(),
                n == count_to(self.members.members@, state, i as int),
                n <= i,
            decreases self.members.members.len() - i,
        {
            if self.members.members[i].member.state == state {
                n += 1;
            }
            i += 1;
        }
        n
    }

    /// The first pending probe that an acknowledgement of `seq` from
    /// `from` answers.
    fn find_probe(&self, seq: u32, from: PeerAddr) -> (r: Option<usize>)
        ensures
            match r {
                Some(i) => i as int == first_answered(
                    self.probes@,
                    seq,
                    from,
                    self.probes@.len() as int,
                ) && i < self.probes@.len(),
                None => first_answered(self.probes@, seq, from, self.probes@.len() as int) < 0,
            },
    {
        let mut found: Option<usize> = None;
        let mut i: usize = 0;
        while i < self.probes.len()
            invariant
                i <= self.probes.len(),
                match found {
                    Some(j) => j as int == first_answered(self.probes@, seq, from, i as int) && j
                        < i,
                    None => first_answered(self.probes@, seq, from, i as int) < 0,
                },
            decreases self.probes.len() - i,
        {
            if found.is_none() && self.probes[i].seq == seq && self.probes[i].target == from {
                found = Some(i);
            }
            i += 1;
        }
        found
    }

    /// Drops every pending probe that an acknowledgement of `seq` from
    /// `from` answers.
    fn drop_answered(&mut self, seq: u32, from: PeerAddr)
        ensures
            final(self)@ == (NodeView {
                probes: unanswered(old(self)@.probes, seq, from, old(self)@.probes.len() as int),
                ..old(self)@
            }),
    {
        let mut kept: Vec<PendingProbe> = Vec::new();
        let mut i: usize = 0;
        while i < self.probes.len()
            invariant
                i <= self.probes.len(),
                kept@ == unanswered(self.probes@, seq, from, i as int),
            decreases self.probes.len() - i,
        {
            let p = self.probes[i];
            if !(p.seq == seq && p.target == from) {
                kept.push(p);
            }
            i += 1;
        }
        self.probes = kept;
    }

    /// Whether a probe to `target` is pending.
    pub fn has_probe_for(&self, target: PeerAddr) -> (r: bool)
        ensures
            r == probing(self@.probes, target, self@.probes.len() as int),
    {
        let mut r = false;
        let mut i: usize = 0;
        while i < self.probes.len()
            invariant
                i <= self.probes.len(),
                r == probing(self.probes@, target, i as int),
            decreases self.probes.len() - i,
        {
            if self.probes[i].target == target {
                r = true;
            }
            i += 1;
        }
        r
    }

    /// Handles one message that arrived at `now`.
    pub fn handle_message(&mut self, msg: Message, now: u64)
        requires
            old(self).wf(),
        ensures
            final(self).wf(),
            final(self)@ == handle_step(old(self)@, msg, now),
    {
        match msg {
            Message::Ping { seq, from } => {
                self.ensure_member(from, now);
                self.queue_send(Message::Ack { seq, from: self.local_addr }, from);
            },
            Message::Ack { seq, from } => {
                match self.find_probe(seq, from) {
                    Some(i) => {
                        let sent_at = self.probes[i].sent_at;
                        let rtt: u64 = if now >= sent_at {
                            now - sent_at
                        } else {
                            0
                        };
                        self.metrics.record_rtt(rtt);
                    },
                    None => {},
                }
                self.drop_answered(seq, from);
                self.mark_active(from, now);
            },
            Message::PingReq { seq, from, target } => {
                self.ensure_member(from, now);
                self.queue_send(Message::Ping { seq, from: self.local_addr }, target);
            },
        }
    }
}


/// The active members other than `target` among the first `k` rows, in
/// the order of the table.
pub open spec fn helpers_to(s: Seq<MemberEntry>, target: PeerAddr, k: int) -> Seq<PeerAddr>
    decreases k,
{
    if k <= 0 {
        Seq::empty()
    } else if s[k - 1].addr != target && s[k - 1].member.state == PeerState::Active {
        helpers_to(s, target, k - 1).push(s[k - 1].addr)
    } else {
        helpers_to(s, target, k - 1)
    }
}

/// The members that can be asked to probe `target`.
pub open spec fn helpers_for(s: Seq<MemberEntry>, target: PeerAddr) -> Seq<PeerAddr> {
    helpers_to(s, target, s.len() as int)
}

/// The active members among the first `k` rows, in the order of the table.
pub open spec fn active_to(s: Seq<MemberEntry>, k: int) -> Seq<PeerAddr>
    decreases k,
{
    if k <= 0 {
        Seq::empty()
    } else if s[k - 1].member.state == PeerState::Active {
        active_to(s, k - 1).push(s[k - 1].addr)
    } else {
        active_to(s, k - 1)
    }
}

/// The number of helpers asked when `n` are eligible.
pub open spec fn batch_size(n: int) -> int {
    if n < INDIRECT_PROBE_COUNT as int {
        n
    } else {
        INDIRECT_PROBE_COUNT as int
    }
}

/// `batch` asks as many helpers as the rule allows, each one an active
/// member other than `target` and none twice, to probe `target` with `seq`
/// for the node at `local`.
pub open spec fn is_helper_batch(
    batch: Seq<OutgoingMessage>,
    table: Seq<MemberEntry>,
    local: PeerAddr,
    target: PeerAddr,
    seq: u32,
) -> bool {
    &&& batch.len() == batch_size(helpers_for(table, target).len() as int)
    &&& forall|i: int|
        0 <= i < batch.len() ==> (#[trigger] batch[i]).msg == (Message::PingReq {
            seq,
            from: local,
            target,
        }) && helpers_for(table, target).contains(batch[i].target)
    &&& forall|i: int, j: int|
        0 <= i < j < batch.len() ==> (#[trigger] batch[i]).target != (#[trigger] batch[j]).target
}

/// Whether a probe sent at `sent_at` has failed at `now`.
pub open spec fn expired(p: PendingProbe, now: u64) -> bool {
    elapsed(now, p.sent_at) > PROBE_TIMEOUT
}

/// Those of the first `k` probes that have failed, with (`indirect` true)
/// or without helpers asked, in their order.
pub open spec fn expired_to(s: Seq<PendingProbe>, indirect: bool, now: u64, k: int) -> Seq<
    PendingProbe,
>
    decreases k,
{
    if k <= 0 {
        Seq::empty()
    } else if expired(s[k - 1], now) && s[k - 1].indirect_sent == indirect {
        expired_to(s, indirect, now, k - 1).push(s[k - 1])
    } else {
        expired_to(s, indirect, now, k - 1)
    }
}

/// The probes after helpers were asked for `target` at `now`: each probe
/// to `target` is marked and its timer starts again.
pub open spec fn promoted(s: Seq<PendingProbe>, target: PeerAddr, now: u64) -> Seq<PendingProbe> {
    Seq::new(
        s.len(),
        |i: int|
            if s[i].target == target {
                PendingProbe { indirect_sent: true, sent_at: now, ..s[i] }
            } else {
                s[i]
            },
    )
}

/// The probes after helpers were asked for the first `k` probes of `need`.
pub open spec fn promoted_all(s: Seq<PendingProbe>, need: Seq<PendingProbe>, now: u64, k: int) -> Seq<
    PendingProbe,
>
    decreases k,
{
    if k <= 0 {
        s
    } else {
        promoted(promoted_all(s, need, now, k - 1), need[k - 1].target, now)
    }
}

/// The table after the targets of the first `k` probes of `gone` were
/// marked suspect.
pub open spec fn suspected_all(t: Seq<MemberEntry>, gone: Seq<PendingProbe>, now: u64, k: int) -> Seq<
    MemberEntry,
>
    decreases k,
{
    if k <= 0 {
        t
    } else {
        with_suspect(suspected_all(t, gone, now, k - 1), gone[k - 1].target, now)
    }
}

/// A counter after `k` more events.
pub open spec fn bumped_by(c: u64, k: int) -> u64 {
    if c + k <= u64::MAX {
        (c + k) as u64
    } else {
        u64::MAX
    }
}

/// Those of the first `k` probes that stay tracked at `now`: the ones
/// that have not failed, and the ones for which no helper was asked yet.
pub open spec fn reaped_to(s: Seq<PendingProbe>, now: u64, k: int) -> Seq<PendingProbe>
    decreases k,
{
    if k <= 0 {
        Seq::empty()
    } else if !expired(s[k - 1], now) || !s[k - 1].indirect_sent {
        reaped_to(s, now, k - 1).push(s[k - 1])
    } else {
        reaped_to(s, now, k - 1)
    }
}

/// `extra` is one helper batch for each of the first `k` probes of `need`,
/// in their order.
pub open spec fn requests_for(
    extra: Seq<OutgoingMessage>,
    table: Seq<MemberEntry>,
    local: PeerAddr,
    need: Seq<PendingProbe>,
    k: int,
) -> bool
    decreases k,
{
    if k <= 0 {
        extra.len() == 0
    } else {
        let c = batch_size(helpers_for(table, need[k - 1].target).len() as int);
        &&& extra.len() >= c
        &&& is_helper_batch(
            extra.subrange(extra.len() - c, extra.len() as int),
            table,
            local,
            need[k - 1].target,
            need[k - 1].seq,
        )
        &&& requests_for(extra.subrange(0, extra.len() - c), table, local, need, k - 1)
    }
}

/// The state after the scan for failed probes at `now`, in which the
/// requests `extra` were queued for helpers: probes that failed without
/// helpers are promoted, the targets of those that failed with helpers
/// become suspect and are counted, and the latter probes are dropped.
pub open spec fn timeouts_step(v: NodeView, extra: Seq<OutgoingMessage>, now: u64) -> NodeView {
    let need = expired_to(v.probes, false, now, v.probes.len() as int);
    let gone = expired_to(v.probes, true, now, v.probes.len() as int);
    let marked = promoted_all(v.probes, need, now, need.len() as int);
    NodeView {
        probes: reaped_to(marked, now, marked.len() as int),
        table: suspected_all(v.table, gone, now, gone.len() as int),
        timeouts: bumped_by(v.timeouts, gone.len() as int),
        queue: v.queue + extra,
        ..v
    }
}

/// The table after every member that has been suspect for longer than
/// the grace period was declared dead.
pub open spec fn buried(t: Seq<MemberEntry>, now: u64) -> Seq<MemberEntry> {
    Seq::new(
        t.len(),
        |i: int|
            if t[i].member.state == PeerState::Suspect && elapsed(
                now,
                t[i].member.last_state_change,
            ) > SUSPECT_TIMEOUT {
                moved(t[i], PeerState::Dead, now)
            } else {
                t[i]
            },
    )
}

/// The state after the scan for expired suspects.
pub open spec fn suspects_step(v: NodeView, now: u64) -> NodeView {
    NodeView { table: buried(v.table, now), ..v }
}

/// The state after the periodic probe, with `rnd` as the random number:
/// the active member at position `rnd` modulo their number is pinged,
/// unless a probe to it is pending; nothing happens without active
/// members.
pub open spec fn probe_pick_step(v: NodeView, rnd: u32, now: u64) -> NodeView {
    let active = active_to(v.table, v.table.len() as int);
    if active.len() == 0 {
        v
    } else {
        let target = active[(rnd as int) % (active.len() as int)];
        if probing(v.probes, target, v.probes.len() as int) {
            v
        } else {
            send_ping_step(v, target, now)
        }
    }
}

/// The state after one maintenance pass at `now`.
pub open spec fn tick_step(v: NodeView, extra: Seq<OutgoingMessage>, rnd: u32, now: u64) -> NodeView {
    probe_pick_step(suspects_step(timeouts_step(v, extra, now), now), rnd, now)
}

/// Time from `now` to the next maintenance pass.
pub open spec fn until_tick(last_tick: u64, now: u64) -> u64 {
    if elapsed(now, last_tick) >= TICK_INTERVAL {
        0
    } else {
        (TICK_INTERVAL - elapsed(now, last_tick)) as u64
    }
}

/// Two tables with the same addresses row by row are valid together.
proof fn lemma_same_addrs_valid(s: Seq<MemberEntry>, t: Seq<MemberEntry>, local: PeerAddr)
    requires
        valid_table(s, local),
        s.len() == t.len(),
        forall|i: int| 0 <= i < s.len() ==> (#[trigger] t[i]).addr == s[i].addr,
    ensures
        valid_table(t, local),
{
    assert forall|a: int, b: int| 0 <= a < b < t.len() implies (#[trigger] t[a]).addr != (
    #[trigger] t[b]).addr by {
        assert(s[a].addr != s[b].addr);
    }
    if has_member(t, local) {
        let k = row_of(t, local);
        assert(s[k].addr == local);
    }
}

/// The helpers for a target are members of a valid table, active, not the
/// target, and none is listed twice.
proof fn lemma_helpers(s: Seq<MemberEntry>, target: PeerAddr, k: int)
    requires
        distinct_rows(s),
        0 <= k <= s.len(),
    ensures
        helpers_to(s, target, k).no_duplicates(),
        forall|x: PeerAddr| #[trigger]
            helpers_to(s, target, k).contains(x) ==> x != target && exists|j: int|
                0 <= j < k && (#[trigger] s[j]).addr == x && s[j].member.state
                    == PeerState::Active,
    decreases k,
{
    if k > 0 {
        lemma_helpers(s, target, k - 1);
        let before = helpers_to(s, target, k - 1);
        let now = helpers_to(s, target, k);
        if s[k - 1].addr != target && s[k - 1].member.state == PeerState::Active {
            assert forall|x: PeerAddr| #[trigger] now.contains(x) implies x != target && exists|
                j: int,
            |
                0 <= j < k && (#[trigger] s[j]).addr == x && s[j].member.state
                    == PeerState::Active by {
                let i = choose|i: int| 0 <= i < now.len() && now[i] == x;
                if i < before.len() {
                    assert(before[i] == x);
                    assert(before.contains(x));
                } else {
                    assert(s[k - 1].addr == x);
                }
            }
            assert forall|a: int, b: int| 0 <= a < now.len() && 0 <= b < now.len() && a
                != b implies now[a] != now[b] by {
                if a < before.len() && b < before.len() {
                } else if a < before.len() {
                    assert(before.contains(before[a]));
                    let j = choose|j: int| 0 <= j < k - 1 && (#[trigger] s[j]).addr == before[a];
                    assert(s[j].addr != s[k - 1].addr);
                } else {
                    assert(before.contains(before[b]));
                    let j = choose|j: int| 0 <= j < k - 1 && (#[trigger] s[j]).addr == before[b];
                    assert(s[j].addr != s[k - 1].addr);
                }
            }
        }
    }
}

/// Some 32-bit number from `rand::rng().next_u32()`, the generator of the
/// calling thread; nothing is known of the number.
#[verifier::external_body]
fn random_u32() -> (r: u32) {
    rand::rng().next_u32()
}

/// Takes the entry at position `rnd` modulo the length out of `indices`;
/// the last entry moves into its place.
pub fn take_index(indices: &mut Vec<usize>, rnd: u32) -> (picked: usize)
    requires
        old(indices)@.len() > 0,
    ensures
        picked == old(indices)@[(rnd as int) % (old(indices)@.len() as int)],
        final(indices)@ == old(indices)@.update(
            (rnd as int) % (old(indices)@.len() as int),
            old(indices)@.last(),
        ).drop_last(),
{
    let idx: usize = rnd as usize % indices.len();
    indices.swap_remove(idx)
}

/// Chooses helpers among `others` at random: as many as the rule allows,
/// each from `others`, no position twice, so none twice where `others`
/// lists none twice.
pub fn choose_helpers(others: &Vec<PeerAddr>) -> (selected: Vec<PeerAddr>)
    ensures
        selected@.len() == batch_size(others@.len() as int),
        forall|i: int| 0 <= i < selected@.len() ==> others@.contains(#[trigger] selected@[i]),
        others@.no_duplicates() ==> selected@.no_duplicates(),
{
    let count: usize = if others.len() < INDIRECT_PROBE_COUNT {
        others.len()
    } else {
        INDIRECT_PROBE_COUNT
    };
    let mut indices: Vec<usize> = Vec::new();
    let mut n: usize = 0;
    while n < others.len()
        invariant
            n <= others.len(),
            indices@.len() == n,
            forall|a: int| 0 <= a < n ==> indices@[a] == a,
        decreases others.len() - n,
    {
        indices.push(n);
        n += 1;
    }
    let mut selected: Vec<PeerAddr> = Vec::new();
    let ghost mut pos: Seq<usize> = Seq::empty();
    let mut k: usize = 0;
    while k < count
        invariant
            k <= count,
            count <= others.len(),
            selected@.len() == k,
            pos.len() == k,
            indices@.len() + k == others.len(),
            forall|a: int| 0 <= a < indices@.len() ==> (#[trigger] indices@[a]) < others.len(),
            forall|a: int, b: int|
                0 <= a < b < indices@.len() ==> (#[trigger] indices@[a]) != (#[trigger] indices@[b]),
            forall|a: int| 0 <= a < k ==> (#[trigger] pos[a]) < others.len() && selected@[a]
                == others@[pos[a] as int],
            forall|a: int, b: int| 0 <= a < b < k ==> (#[trigger] pos[a]) != (#[trigger] pos[b]),
            forall|a: int, b: int|
                0 <= a < k && 0 <= b < indices@.len() ==> (#[trigger] pos[a]) != (
                #[trigger] indices@[b]),
        decreases count - k,
    {
        let rnd = random_u32();
        let ghost before = indices@;
        let picked = take_index(&mut indices, rnd);
        proof {
            let at = (rnd as int) % (before.len() as int);
            assert(before[at] == picked);
            assert forall|a: int| 0 <= a < indices@.len() implies (#[trigger] indices@[a])
                < others.len() && indices@[a] != picked && exists|c: int|
                0 <= c < before.len() && c != at && before[c] == indices@[a] && (c == a || (a == at
                    && c == before.len() - 1)) by {
                if a == at {
                    assert(indices@[a] == before[before.len() - 1]);
                } else {
                    assert(indices@[a] == before[a]);
                }
            }
            pos = pos.push(picked);
        }
        selected.push(others[picked]);
        k += 1;
    }
    proof {
        assert forall|i: int| 0 <= i < selected@.len() implies others@.contains(
            #[trigger] selected@[i],
        ) by {
            assert(others@[pos[i] as int] == selected@[i]);
        }
        if others@.no_duplicates() {
            assert forall|a: int, b: int|
                0 <= a < selected@.len() && 0 <= b < selected@.len() && a != b implies selected@[a]
                != selected@[b] by {
                if a < b {
                    assert(pos[a] != pos[b]);
                } else {
                    assert(pos[b] != pos[a]);
                }
            }
        }
    }
    selected
}

impl Node {
    /// The active members other than `target`, in the order of the table.
    pub fn eligible_helpers(&self, target: PeerAddr) -> (v: Vec<PeerAddr>)
        ensures
            v@ == helpers_for(self@.table, target),
    {
        let mut v: Vec<PeerAddr> = Vec::new();
        let mut i: usize = 0;
        while i < self.members.members.len()
            invariant
                i <= self.members.members.len(),
                v@ == helpers_to(self.members.members@, target, i as int),
            decreases self.members.members.len() - i,
        {
            let e = self.members.members[i];
            if e.addr != target && e.member.state == PeerState::Active {
                v.push(e.addr);
            }
            i += 1;
        }
        v
    }

    /// The active members, in the order of the table.
    pub fn active_members(&self) -> (v: Vec<PeerAddr>)
        ensures
            v@ == active_to(self@.table, self@.table.len() as int),
    {
        let mut v: Vec<PeerAddr> = Vec::new();
        let mut i: usize = 0;
        while i < self.members.members.len()
            invariant
                i <= self.members.members.len(),
                v@ == active_to(self.members.members@, i as int),
            decreases self.members.members.len() - i,
        {
            let e = self.members.members[i];
            if e.member.state == PeerState::Active {
                v.push(e.addr);
            }
            i += 1;
        }
        v
    }

    /// Asks helpers, chosen at random, to probe `target` with `seq`. The
    /// rest of the state stays as it is; without eligible helpers nothing
    /// is queued.
    pub fn send_indirect_probes(&mut self, target: PeerAddr, seq: u32)
        requires
            old(self).wf(),
        ensures
            final(self).wf(),
            old(self)@.queue.len() <= final(self)@.queue.len(),
            final(self)@ == (NodeView {
                queue: old(self)@.queue + final(self)@.queue.skip(old(self)@.queue.len() as int),
                ..old(self)@
            }),
            is_helper_batch(
                final(self)@.queue.skip(old(self)@.queue.len() as int),
                old(self)@.table,
                old(self)@.local_addr,
                target,
                seq,
            ),
    {
        let others = self.eligible_helpers(target);
        proof {
            lemma_helpers(self@.table, target, self@.table.len() as int);
        }
        let selected = choose_helpers(&others);
        let ghost start = self@;
        let mut i: usize = 0;
        while i < selected.len()
            invariant
                i <= selected.len(),
                self@.queue.len() == start.queue.len() + i,
                self@ == (NodeView {
                    queue: start.queue + self@.queue.skip(start.queue.len() as int),
                    ..start
                }),
                forall|j: int|
                    0 <= j < i ==> (#[trigger] self@.queue[start.queue.len() + j])
                        == (OutgoingMessage {
                        msg: Message::PingReq { seq, from: start.local_addr, target },
                        target: selected@[j],
                    }),
            decreases selected.len() - i,
        {
            let ghost prev = self@;
            self.queue_send(Message::PingReq { seq, from: self.local_addr, target }, selected[i]);
            proof {
                assert(self@.queue =~= start.queue + self@.queue.skip(start.queue.len() as int));
                assert forall|j: int| 0 <= j < i + 1 implies (#[trigger] self@.queue[start.queue.len()
                    + j]) == (OutgoingMessage {
                    msg: Message::PingReq { seq, from: start.local_addr, target },
                    target: selected@[j],
                }) by {
                    if j < i {
                        assert(self@.queue[start.queue.len() + j] == prev.queue[start.queue.len()
                            + j]);
                    }
                }
            }
            i += 1;
        }
        proof {
            let batch = self@.queue.skip(start.queue.len() as int);
            assert(self@.queue =~= start.queue + batch);
            assert forall|j: int| 0 <= j < batch.len() implies (#[trigger] batch[j]).msg
                == (Message::PingReq { seq, from: start.local_addr, target }) && helpers_for(
                start.table,
                target,
            ).contains(batch[j].target) by {
                assert(batch[j] == self@.queue[start.queue.len() + j]);
                assert(others@.contains(selected@[j]));
            }
            assert forall|a: int, b: int| 0 <= a < b < batch.len() implies (#[trigger] batch[a]).target
                != (#[trigger] batch[b]).target by {
                assert(batch[a] == self@.queue[start.queue.len() + a]);
                assert(batch[b] == self@.queue[start.queue.len() + b]);
                assert(selected@[a] != selected@[b]);
            }
        }
    }
}


/// Marking members suspect keeps the table valid.
proof fn lemma_suspected_valid(
    t: Seq<MemberEntry>,
    local: PeerAddr,
    gone: Seq<PendingProbe>,
    now: u64,
    k: int,
)
    requires
        valid_table(t, local),
        0 <= k <= gone.len(),
    ensures
        valid_table(suspected_all(t, gone, now, k), local),
    decreases k,
{
    if k > 0 {
        lemma_suspected_valid(t, local, gone, now, k - 1);
        lemma_moves_keep_valid(suspected_all(t, gone, now, k - 1), local, gone[k - 1].target, now);
    }
}

/// The scans of one maintenance pass keep the node out of its own table.
pub proof fn lemma_tick_keeps_valid(v: NodeView, extra: Seq<OutgoingMessage>, rnd: u32, now: u64)
    requires
        v.wf(),
    ensures
        timeouts_step(v, extra, now).wf(),
        suspects_step(timeouts_step(v, extra, now), now).wf(),
        tick_step(v, extra, rnd, now).wf(),
{
    let gone = expired_to(v.probes, true, now, v.probes.len() as int);
    lemma_suspected_valid(v.table, v.local_addr, gone, now, gone.len() as int);
    let a = timeouts_step(v, extra, now);
    lemma_same_addrs_valid(a.table, buried(a.table, now), v.local_addr);
}

/// A dead member stays dead through the scans of a maintenance pass.
pub proof fn lemma_scans_keep_dead(
    t: Seq<MemberEntry>,
    local: PeerAddr,
    gone: Seq<PendingProbe>,
    now: u64,
    k: int,
    addr: PeerAddr,
)
    requires
        valid_table(t, local),
        0 <= k <= gone.len(),
        state_of(t, addr) == Some(PeerState::Dead),
    ensures
        state_of(suspected_all(t, gone, now, k), addr) == Some(PeerState::Dead),
        state_of(buried(suspected_all(t, gone, now, k), now), addr) == Some(PeerState::Dead),
    decreases k,
{
    let i = row_of(t, addr);
    lemma_suspected_valid(t, local, gone, now, k);
    lemma_dead_row_stays(t, local, gone, now, k, i);
    let u = suspected_all(t, gone, now, k);
    lemma_row_unique(u, addr, i);
    let w = buried(u, now);
    lemma_same_addrs_valid(u, w, local);
    assert(w[i] == u[i]);
    lemma_row_unique(w, addr, i);
}

proof fn lemma_dead_row_stays(
    t: Seq<MemberEntry>,
    local: PeerAddr,
    gone: Seq<PendingProbe>,
    now: u64,
    k: int,
    i: int,
)
    requires
        valid_table(t, local),
        0 <= k <= gone.len(),
        0 <= i < t.len(),
        t[i].member.state == PeerState::Dead,
    ensures
        suspected_all(t, gone, now, k).len() == t.len(),
        suspected_all(t, gone, now, k)[i] == t[i],
    decreases k,
{
    if k > 0 {
        lemma_dead_row_stays(t, local, gone, now, k - 1, i);
    }
}

impl Node {
    /// Marks every probe to `target` as passed on to helpers and starts
    /// its timer again.
    fn promote(&mut self, target: PeerAddr, now: u64)
        ensures
            final(self)@ == (NodeView {
                probes: promoted(old(self)@.probes, target, now),
                ..old(self)@
            }),
    {
        let ghost before = self.probes@;
        let mut i: usize = 0;
        while i < self.probes.len()
            invariant
                i <= self.probes.len(),
                self.probes@.len() == before.len(),
                self@ == (NodeView { probes: self.probes@, ..old(self)@ }),
                forall|j: int| 0 <= j < i ==> self.probes@[j] == promoted(before, target, now)[j],
                forall|j: int| i <= j < before.len() ==> self.probes@[j] == before[j],
            decreases self.probes.len() - i,
        {
            let p = self.probes[i];
            if p.target == target {
                self.probes.set(
                    i,
                    PendingProbe { seq: p.seq, target: p.target, sent_at: now, indirect_sent: true },
                );
            }
            i += 1;
        }
        proof {
            assert(self.probes@ =~= promoted(before, target, now));
        }
    }

    /// Drops the probes that failed after helpers were asked.
    fn reap(&mut self, now: u64)
        ensures
            final(self)@ == (NodeView {
                probes: reaped_to(old(self)@.probes, now, old(self)@.probes.len() as int),
                ..old(self)@
            }),
    {
        let mut kept: Vec<PendingProbe> = Vec::new();
        let mut i: usize = 0;
        while i < self.probes.len()
            invariant
                i <= self.probes.len(),
                kept@ == reaped_to(self.probes@, now, i as int),
            decreases self.probes.len() - i,
        {
            let p = self.probes[i];
            let age: u64 = if now >= p.sent_at {
                now - p.sent_at
            } else {
                0
            };
            if age <= PROBE_TIMEOUT || !p.indirect_sent {
                kept.push(p);
            }
            i += 1;
        }
        self.probes = kept;
    }

    /// The probes that have failed at `now`, with or without helpers
    /// asked, in their order.
    fn expired_probes(&self, indirect: bool, now: u64) -> (v: Vec<PendingProbe>)
        ensures
            v@ == expired_to(self@.probes, indirect, now, self@.probes.len() as int),
    {
        let mut v: Vec<PendingProbe> = Vec::new();
        let mut i: usize = 0;
        while i < self.probes.len()
            invariant
                i <= self.probes.len(),
                v@ == expired_to(self.probes@, indirect, now, i as int),
            decreases self.probes.len() - i,
        {
            let p = self.probes[i];
            let age: u64 = if now >= p.sent_at {
                now - p.sent_at
            } else {
                0
            };
            if age > PROBE_TIMEOUT && p.indirect_sent == indirect {
                v.push(p);
            }
            i += 1;
        }
        v
    }

    /// The scan for failed probes: a probe that failed without helpers is
    /// passed on to helpers chosen at random; the target of one that
    /// failed with helpers becomes suspect, the failure is counted and
    /// the probe dropped.
    pub fn check_probe_timeouts(&mut self, now: u64)
        requires
            old(self).wf(),
        ensures
            final(self).wf(),
            old(self)@.queue.len() <= final(self)@.queue.len(),
            final(self)@ == timeouts_step(
                old(self)@,
                final(self)@.queue.skip(old(self)@.queue.len() as int),
                now,
            ),
            requests_for(
                final(self)@.queue.skip(old(self)@.queue.len() as int),
                old(self)@.table,
                old(self)@.local_addr,
                expired_to(old(self)@.probes, false, now, old(self)@.probes.len() as int),
                expired_to(old(self)@.probes, false, now, old(self)@.probes.len() as int).len() as int,
            ),
    {
        let ghost start = self@;
        let need = self.expired_probes(false, now);
        let gone = self.expired_probes(true, now);
        let mut k: usize = 0;
        proof {
            assert(self@.queue.skip(start.queue.len() as int) =~= Seq::<OutgoingMessage>::empty());
            assert(start.queue + Seq::<OutgoingMessage>::empty() =~= start.queue);
        }
        while k < need.len()
            invariant
                k <= need.len(),
                self.wf(),
                start.queue.len() <= self@.queue.len(),
                self@ == (NodeView {
                    probes: promoted_all(start.probes, need@, now, k as int),
                    queue: start.queue + self@.queue.skip(start.queue.len() as int),
                    ..start
                }),
                requests_for(
                    self@.queue.skip(start.queue.len() as int),
                    start.table,
                    start.local_addr,
                    need@,
                    k as int,
                ),
            decreases need.len() - k,
        {
            let ghost prev = self@;
            let p = need[k];
            self.send_indirect_probes(p.target, p.seq);
            proof {
                let extra = self@.queue.skip(start.queue.len() as int);
                let batch = self@.queue.skip(prev.queue.len() as int);
                let earlier = prev.queue.skip(start.queue.len() as int);
                assert(self@.queue =~= start.queue + extra);
                assert(extra =~= earlier + batch);
                assert(extra.subrange(extra.len() - batch.len(), extra.len() as int) =~= batch);
                assert(extra.subrange(0, extra.len() - batch.len()) =~= earlier);
            }
            self.promote(p.target, now);
            k += 1;
        }
        let mut j: usize = 0;
        let ghost mid = self@;
        while j < gone.len()
            invariant
                j <= gone.len(),
                self.wf(),
                self@ == (NodeView {
                    table: suspected_all(start.table, gone@, now, j as int),
                    timeouts: bumped_by(start.timeouts, j as int),
                    ..mid
                }),
            decreases gone.len() - j,
        {
            self.mark_suspect(gone[j].target, now);
            self.metrics.record_timeout();
            j += 1;
        }
        self.reap(now);
    }

    /// The scan for expired suspects: a member that has been suspect for
    /// longer than the grace period is declared dead.
    pub fn check_suspect_timeouts(&mut self, now: u64)
        requires
            old(self).wf(),
        ensures
            final(self).wf(),
            final(self)@ == suspects_step(old(self)@, now),
    {
        let ghost before = self@.table;
        let mut i: usize = 0;
        while i < self.members.members.len()
            invariant
                i <= self.members.members.len(),
                self@.table.len() == before.len(),
                self@ == (NodeView { table: self@.table, ..old(self)@ }),
                forall|j: int| 0 <= j < i ==> self@.table[j] == buried(before, now)[j],
                forall|j: int| i <= j < before.len() ==> self@.table[j] == before[j],
            decreases self.members.members.len() - i,
        {
            let m = self.members.members[i].member;
            let age: u64 = if now >= m.last_state_change {
                now - m.last_state_change
            } else {
                0
            };
            if m.state == PeerState::Suspect && age > SUSPECT_TIMEOUT {
                self.members.move_row(i, PeerState::Dead, now);
            }
            i += 1;
        }
        proof {
            assert(self@.table =~= buried(before, now));
            lemma_same_addrs_valid(before, self@.table, self.local_addr);
        }
    }

    /// The periodic probe with `rnd` as the random number.
    pub fn probe_member_with(&mut self, rnd: u32, now: u64)
        requires
            old(self).wf(),
        ensures
            final(self).wf(),
            final(self)@ == probe_pick_step(old(self)@, rnd, now),
    {
        let active = self.active_members();
        if active.len() == 0 {
            return;
        }
        let target = active[rnd as usize % active.len()];
        if self.has_probe_for(target) {
            return;
        }
        self.send_ping(target, now);
    }

    /// Pings an active member chosen at random, unless a probe to it is
    /// pending.
    pub fn probe_random_member(&mut self, now: u64)
        requires
            old(self).wf(),
        ensures
            final(self).wf(),
            exists|rnd: u32| final(self)@ == #[trigger] probe_pick_step(old(self)@, rnd, now),
    {
        if self.active_members().len() == 0 {
            assert(self@ == probe_pick_step(self@, 0, now));
            return;
        }
        let rnd = random_u32();
        self.probe_member_with(rnd, now);
    }

    /// One maintenance pass: the scan for failed probes, the scan for
    /// expired suspects, and the periodic probe.
    pub fn tick(&mut self, now: u64)
        requires
            old(self).wf(),
        ensures
            final(self).wf(),
            exists|extra: Seq<OutgoingMessage>, rnd: u32|
                final(self)@ == #[trigger] tick_step(old(self)@, extra, rnd, now) && requests_for(
                    extra,
                    old(self)@.table,
                    old(self)@.local_addr,
                    expired_to(old(self)@.probes, false, now, old(self)@.probes.len() as int),
                    expired_to(old(self)@.probes, false, now, old(self)@.probes.len() as int).len() as int,
                ),
    {
        let ghost start = self@;
        self.check_probe_timeouts(now);
        let ghost extra = self@.queue.skip(start.queue.len() as int);
        self.check_suspect_timeouts(now);
        let ghost mid = self@;
        self.probe_random_member(now);
        proof {
            let rnd = choose|rnd: u32| self@ == #[trigger] probe_pick_step(mid, rnd, now);
            assert(self@ == tick_step(start, extra, rnd, now));
        }
    }

    /// Time from `now` to the next maintenance pass; zero when it is due.
    pub fn time_until_tick(&self, now: u64) -> (d: u64)
        ensures
            d == until_tick(self@.last_tick, now),
            d == 0 <==> elapsed(now, self@.last_tick) >= TICK_INTERVAL,
    {
        let e: u64 = if now >= self.last_tick {
            now - self.last_tick
        } else {
            0
        };
        if e >= TICK_INTERVAL {
            0
        } else {
            TICK_INTERVAL - e
        }
    }

    /// Whether a maintenance pass is due at `now`.
    pub fn tick_due(&self, now: u64) -> (due: bool)
        ensures
            due == (elapsed(now, self@.last_tick) >= TICK_INTERVAL),
            due == (until_tick(self@.last_tick, now) == 0),
    {
        let e: u64 = if now >= self.last_tick {
            now - self.last_tick
        } else {
            0
        };
        e >= TICK_INTERVAL
    }

    /// Runs a maintenance pass if one is due at `now` and notes when it
    /// ran; otherwise leaves the node as it is.
    pub fn advance(&mut self, now: u64) -> (ran: bool)
        requires
            old(self).wf(),
        ensures
            final(self).wf(),
            ran == (elapsed(now, old(self)@.last_tick) >= TICK_INTERVAL),
            !ran ==> final(self)@ == old(self)@,
            ran ==> exists|extra: Seq<OutgoingMessage>, rnd: u32|
                final(self)@ == (NodeView {
                    last_tick: now,
                    ..#[trigger] tick_step(old(self)@, extra, rnd, now)
                }) && requests_for(
                    extra,
                    old(self)@.table,
                    old(self)@.local_addr,
                    expired_to(old(self)@.probes, false, now, old(self)@.probes.len() as int),
                    expired_to(old(self)@.probes, false, now, old(self)@.probes.len() as int).len() as int,
                ),
    {
        if self.tick_due(now) {
            self.tick(now);
            self.last_tick = now;
            true
        } else {
            false
        }
    }
}


impl Node {
    /// Handles the outcome of decoding one datagram that arrived at
    /// `now`: a message is handled, an error is handed back and leaves the
    /// node as it is.
    pub fn dispatch(&mut self, decoded: Result<Message, CodecError>, now: u64) -> (r: Result<
        (),
        CodecError,
    >)
        requires
            old(self).wf(),
        ensures
            final(self).wf(),
            match decoded {
                Ok(msg) => r is Ok && final(self)@ == handle_step(old(self)@, msg, now),
                Err(e) => r == Err::<(), CodecError>(e) && final(self)@ == old(self)@,
            },
    {
        match decoded {
            Ok(msg) => {
                self.handle_message(msg, now);
                Ok(())
            },
            Err(e) => Err(e),
        }
    }

    /// Decodes and handles one datagram that arrived at `now`. Bytes that
    /// are no message are reported and leave the node as it is.
    pub fn receive(&mut self, bytes: &[u8], now: u64) -> (r: Result<(), CodecError>)
        requires
            old(self).wf(),
        ensures
            final(self).wf(),
            match crate::protocol::messages::decoded(
                crate::protocol::messages::postcard_parse(bytes@),
            ) {
                Ok(msg) => r is Ok && final(self)@ == handle_step(old(self)@, msg, now),
                Err(e) => r == Err::<(), CodecError>(e) && final(self)@ == old(self)@,
            },
    {
        let decoded = Message::from_bytes(bytes);
        self.dispatch(decoded, now)
    }
}


impl Node {
    /// Whether the membership table is valid: no address has two rows,
    /// and the node's own address has none.
    pub fn is_well_formed(&self) -> (r: bool)
        ensures
            r == self.wf(),
    {
        let n: usize = self.members.members.len();
        let mut i: usize = 0;
        while i < n
            invariant
                i <= n,
                n == self.members.members@.len(),
                forall|a: int, b: int|
                    0 <= a < b < n && a < i ==> (#[trigger] self.members.members@[a]).addr != (
                    #[trigger] self.members.members@[b]).addr,
                forall|a: int|
                    0 <= a < i ==> (#[trigger] self.members.members@[a]).addr != self.local_addr,
            decreases n - i,
        {
            if self.members.members[i].addr == self.local_addr {
                return false;
            }
            let mut j: usize = i + 1;
            while j < n
                invariant
                    i < j <= n,
                    n == self.members.members@.len(),
                    forall|b: int|
                        i < b < j ==> self.members.members@[i as int].addr != (
                        #[trigger] self.members.members@[b]).addr,
                decreases n - j,
            {
                if self.members.members[i].addr == self.members.members[j].addr {
                    return false;
                }
                j += 1;
            }
            i += 1;
        }
        true
    }
}


/// The place of a state in the order active, suspect, dead.
pub open spec fn rank(state: PeerState) -> int {
    match state {
        PeerState::Active => 0,
        PeerState::Suspect => 1,
        PeerState::Dead => 2,
    }
}

impl PeerState {
    /// The place of the state in the order active, suspect, dead.
    pub fn severity(&self) -> (r: u8)
        ensures
            r == rank(*self),
    {
        match self {
            PeerState::Active => 0,
            PeerState::Suspect => 1,
            PeerState::Dead => 2,
        }
    }
}

/// Without evidence of life a member only moves down the order active,
/// suspect, dead: neither a failed probe chain, nor a death, nor the scan
/// for expired suspects moves any row up, and a failed probe chain moves
/// a row down by one step at most.
pub proof fn lemma_failures_only_downgrade(
    s: Seq<MemberEntry>,
    local: PeerAddr,
    addr: PeerAddr,
    now: u64,
    i: int,
)
    requires
        valid_table(s, local),
        0 <= i < s.len(),
    ensures
        with_suspect(s, addr, now).len() == s.len(),
        with_dead(s, addr, now).len() == s.len(),
        buried(s, now).len() == s.len(),
        rank(s[i].member.state) <= rank(with_suspect(s, addr, now)[i].member.state) <= rank(
            s[i].member.state,
        ) + 1,
        rank(s[i].member.state) <= rank(with_dead(s, addr, now)[i].member.state),
        rank(s[i].member.state) <= rank(buried(s, now)[i].member.state),
{
}

/// Asking helpers never clears the mark of a probe: once helpers were
/// asked for it, they stay asked.
pub proof fn lemma_promotion_keeps_mark(s: Seq<PendingProbe>, target: PeerAddr, now: u64, i: int)
    requires
        0 <= i < s.len(),
    ensures
        promoted(s, target, now).len() == s.len(),
        s[i].indirect_sent ==> promoted(s, target, now)[i].indirect_sent,
        promoted(s, target, now)[i].seq == s[i].seq,
        promoted(s, target, now)[i].target == s[i].target,
{
}

/// A dead member is still dead after a maintenance pass.
pub proof fn lemma_tick_keeps_dead(
    v: NodeView,
    extra: Seq<OutgoingMessage>,
    rnd: u32,
    now: u64,
    addr: PeerAddr,
)
    requires
        v.wf(),
        state_of(v.table, addr) == Some(PeerState::Dead),
    ensures
        state_of(tick_step(v, extra, rnd, now).table, addr) == Some(PeerState::Dead),
{
    let gone = expired_to(v.probes, true, now, v.probes.len() as int);
    lemma_scans_keep_dead(v.table, v.local_addr, gone, now, gone.len() as int, addr);
}

/// The state after the first `k` of the messages `msgs` arrived, each at
/// its own time.
pub open spec fn after_messages(v: NodeView, msgs: Seq<(Message, u64)>, k: int) -> NodeView
    decreases k,
{
    if k <= 0 {
        v
    } else {
        handle_step(after_messages(v, msgs, k - 1), msgs[k - 1].0, msgs[k - 1].1)
    }
}

/// Whatever messages arrive, in whatever order, the node never becomes a
/// member of its own table, and no address gets two rows.
pub proof fn lemma_never_own_member(v: NodeView, msgs: Seq<(Message, u64)>, k: int)
    requires
        v.wf(),
        0 <= k <= msgs.len(),
    ensures
        after_messages(v, msgs, k).local_addr == v.local_addr,
        after_messages(v, msgs, k).wf(),
        !has_member(after_messages(v, msgs, k).table, v.local_addr),
    decreases k,
{
    if k > 0 {
        lemma_never_own_member(v, msgs, k - 1);
        lemma_handle_keeps_valid(after_messages(v, msgs, k - 1), msgs[k - 1].0, msgs[k - 1].1);
    }
}

/// The sequence counter after `k` probes were sent.
pub open spec fn seq_after_sends(seq: u32, k: int) -> u32
    decreases k,
{
    if k <= 0 {
        seq
    } else {
        seq_after(seq_after_sends(seq, k - 1))
    }
}

/// Each probe moves the sequence counter on by one modulo 2^32.
pub proof fn lemma_seq_after_sends(seq: u32, k: int)
    requires
        0 <= k,
    ensures
        seq_after_sends(seq, k) as int == (seq + k) % 0x1_0000_0000,
    decreases k,
{
    if k > 0 {
        lemma_seq_after_sends(seq, k - 1);
    }
}

/// Two probes sent fewer than 2^32 sends apart carry different sequence
/// numbers.
pub proof fn lemma_seq_numbers_differ(seq: u32, i: int, j: int)
    requires
        0 <= i < j,
        j - i < 0x1_0000_0000,
    ensures
        seq_after_sends(seq, i) != seq_after_sends(seq, j),
{
    lemma_seq_after_sends(seq, i);
    lemma_seq_after_sends(seq, j);
}


proof fn lemma_unanswered_subset(s: Seq<PendingProbe>, seq: u32, from: PeerAddr, k: int)
    requires
        0 <= k <= s.len(),
    ensures
        forall|p: PendingProbe| #[trigger]
            unanswered(s, seq, from, k).contains(p) ==> s.contains(p) && !answers(p, seq, from),
    decreases k,
{
    if k > 0 {
        lemma_unanswered_subset(s, seq, from, k - 1);
        let before = unanswered(s, seq, from, k - 1);
        let now = unanswered(s, seq, from, k);
        assert forall|p: PendingProbe| #[trigger] now.contains(p) implies s.contains(p) && !answers(
            p,
            seq,
            from,
        ) by {
            let i = choose|i: int| 0 <= i < now.len() && now[i] == p;
            if i < before.len() {
                assert(before[i] == p);
                assert(before.contains(p));
            } else {
                assert(s[k - 1] == p);
            }
        }
    }
}

/// A message never starts a probe: every probe tracked after it was
/// tracked before, so each one goes back to a ping that this node sent.
/// After an acknowledgement no probe is left that it answers.
pub proof fn lemma_messages_add_no_probe(v: NodeView, msg: Message, now: u64, p: PendingProbe)
    requires
        handle_step(v, msg, now).probes.contains(p),
    ensures
        v.probes.contains(p),
        msg matches Message::Ack { seq, from } ==> !answers(p, seq, from),
{
    match msg {
        Message::Ack { seq, from } => {
            lemma_unanswered_subset(v.probes, seq, from, v.probes.len() as int);
        },
        _ => {},
    }
}


/// Whether a probe with `seq` to `target` is tracked.
pub open spec fn tracks(s: Seq<PendingProbe>, seq: u32, target: PeerAddr) -> bool {
    exists|i: int| 0 <= i < s.len() && (#[trigger] s[i]).seq == seq && s[i].target == target
}

/// What happens to a node: it joins through a seed, a message arrives, or
/// a maintenance pass runs, in which the requests `extra` go to helpers
/// and `rnd` is the random number of the periodic probe.
pub enum Event {
    Join { target: PeerAddr, now: u64 },
    Receive { msg: Message, now: u64 },
    Tick { extra: Seq<OutgoingMessage>, rnd: u32, now: u64 },
}

/// The state after the event `e`.
pub open spec fn step(v: NodeView, e: Event) -> NodeView {
    match e {
        Event::Join { target, now } => send_ping_step(v, target, now),
        Event::Receive { msg, now } => handle_step(v, msg, now),
        Event::Tick { extra, rnd, now } => NodeView {
            last_tick: now,
            ..tick_step(v, extra, rnd, now)
        },
    }
}

/// The state after the first `k` events of `events`.
pub open spec fn run(v: NodeView, events: Seq<Event>, k: int) -> NodeView
    decreases k,
{
    if k <= 0 {
        v
    } else {
        step(run(v, events, k - 1), events[k - 1])
    }
}

/// The direct ping that the periodic probe sends in state `v`, by its
/// sequence number and target, if it sends one.
pub open spec fn periodic_ping(v: NodeView, rnd: u32) -> Option<(u32, PeerAddr)> {
    let active = active_to(v.table, v.table.len() as int);
    if active.len() == 0 {
        None
    } else {
        let target = active[(rnd as int) % (active.len() as int)];
        if probing(v.probes, target, v.probes.len() as int) {
            None
        } else {
            Some((v.self_seq, target))
        }
    }
}

/// The direct ping that the node sends on event `e` in state `v`, by its
/// sequence number and target, if it sends one.
pub open spec fn ping_sent(v: NodeView, e: Event) -> Option<(u32, PeerAddr)> {
    match e {
        Event::Join { target, now } => Some((v.self_seq, target)),
        Event::Receive { msg, now } => None,
        Event::Tick { extra, rnd, now } => periodic_ping(
            suspects_step(timeouts_step(v, extra, now), now),
            rnd,
        ),
    }
}

/// The direct ping that the node sends on event `j` of a run.
pub open spec fn ping_sent_at(v: NodeView, events: Seq<Event>, j: int) -> Option<(u32, PeerAddr)> {
    ping_sent(run(v, events, j), events[j])
}

/// Whether one of the first `k` events of a run sent a direct ping with
/// `seq` to `target`.
pub open spec fn sent_before(
    v: NodeView,
    events: Seq<Event>,
    k: int,
    seq: u32,
    target: PeerAddr,
) -> bool {
    exists|j: int| 0 <= j < k && #[trigger] ping_sent_at(v, events, j) == Some((seq, target))
}

proof fn lemma_reaped_subset(s: Seq<PendingProbe>, now: u64, k: int)
    requires
        0 <= k <= s.len(),
    ensures
        forall|p: PendingProbe| #[trigger] reaped_to(s, now, k).contains(p) ==> s.contains(p),
    decreases k,
{
    if k > 0 {
        lemma_reaped_subset(s, now, k - 1);
        let before = reaped_to(s, now, k - 1);
        let after = reaped_to(s, now, k);
        assert forall|p: PendingProbe| #[trigger] after.contains(p) implies s.contains(p) by {
            let i = choose|i: int| 0 <= i < after.len() && after[i] == p;
            if i < before.len() {
                assert(before[i] == p);
                assert(before.contains(p));
            } else {
                assert(s[k - 1] == p);
            }
        }
    }
}

proof fn lemma_promoted_all_keys(s: Seq<PendingProbe>, need: Seq<PendingProbe>, now: u64, k: int)
    requires
        0 <= k <= need.len(),
    ensures
        promoted_all(s, need, now, k).len() == s.len(),
        forall|i: int|
            0 <= i < s.len() ==> (#[trigger] promoted_all(s, need, now, k)[i]).seq == s[i].seq
                && promoted_all(s, need, now, k)[i].target == s[i].target,
    decreases k,
{
    if k > 0 {
        lemma_promoted_all_keys(s, need, now, k - 1);
    }
}

/// A probe tracked after an event was tracked before it, or is the
/// direct ping that the event sent.
proof fn lemma_step_probes(v: NodeView, e: Event, seq: u32, target: PeerAddr)
    requires
        tracks(step(v, e).probes, seq, target),
    ensures
        tracks(v.probes, seq, target) || ping_sent(v, e) == Some((seq, target)),
{
    let w = step(v, e);
    let i = choose|i: int|
        0 <= i < w.probes.len() && (#[trigger] w.probes[i]).seq == seq && w.probes[i].target
            == target;
    let p = w.probes[i];
    match e {
        Event::Join { target: seed, now } => {
            if i < v.probes.len() {
                assert(v.probes[i] == p);
            }
        },
        Event::Receive { msg, now } => {
            assert(w.probes.contains(p));
            lemma_messages_add_no_probe(v, msg, now, p);
            let j = choose|j: int| 0 <= j < v.probes.len() && v.probes[j] == p;
            assert(v.probes[j].seq == seq);
        },
        Event::Tick { extra, rnd, now } => {
            let need = expired_to(v.probes, false, now, v.probes.len() as int);
            let marked = promoted_all(v.probes, need, now, need.len() as int);
            let mid = suspects_step(timeouts_step(v, extra, now), now);
            lemma_promoted_all_keys(v.probes, need, now, need.len() as int);
            lemma_reaped_subset(marked, now, marked.len() as int);
            if i < mid.probes.len() {
                assert(mid.probes[i] == p);
                assert(mid.probes.contains(p));
                let j = choose|j: int| 0 <= j < marked.len() && marked[j] == p;
                assert(v.probes[j].seq == seq && v.probes[j].target == target);
            }
        },
    }
}

/// In a run that starts without pending probes, every tracked probe goes
/// back to a direct ping that an earlier event sent with the same
/// sequence number to the same target.
pub proof fn lemma_probes_were_sent(v: NodeView, events: Seq<Event>, k: int)
    requires
        v.probes.len() == 0,
        0 <= k <= events.len(),
    ensures
        forall|seq: u32, target: PeerAddr| #[trigger]
            tracks(run(v, events, k).probes, seq, target) ==> sent_before(
                v,
                events,
                k,
                seq,
                target,
            ),
    decreases k,
{
    if k > 0 {
        lemma_probes_were_sent(v, events, k - 1);
        let w = run(v, events, k - 1);
        assert forall|seq: u32, target: PeerAddr| #[trigger]
            tracks(run(v, events, k).probes, seq, target) implies sent_before(
            v,
            events,
            k,
            seq,
            target,
        ) by {
            lemma_step_probes(w, events[k - 1], seq, target);
            if tracks(w.probes, seq, target) {
                let j = choose|j: int|
                    0 <= j < k - 1 && #[trigger] ping_sent_at(v, events, j) == Some((seq, target));
                assert(ping_sent_at(v, events, j) == Some((seq, target)));
            } else {
                assert(ping_sent_at(v, events, k - 1) == Some((seq, target)));
            }
        }
    }
}

/// In a run that starts without pending probes, the round-trip samples
/// change only when an acknowledgement arrives for which an earlier event
/// sent a direct ping with the same sequence number to its sender.
pub proof fn lemma_samples_follow_pings(v: NodeView, events: Seq<Event>, k: int)
    requires
        v.probes.len() == 0,
        0 <= k < events.len(),
        run(v, events, k + 1).ring != run(v, events, k).ring,
    ensures
        events[k] matches Event::Receive { msg: Message::Ack { seq, from }, now } && sent_before(
            v,
            events,
            k,
            seq,
            from,
        ),
{
    let w = run(v, events, k);
    lemma_probes_were_sent(v, events, k);
    match events[k] {
        Event::Receive { msg: Message::Ack { seq, from }, now } => {
            lemma_sample_has_probe(w, seq, from, now);
            let i = first_answered(w.probes, seq, from, w.probes.len() as int);
            assert(w.probes[i].seq == seq && w.probes[i].target == from);
            assert(tracks(w.probes, seq, from));
        },
        _ => {},
    }
}


/// Whatever happens to a node, its table stays valid: the node's own
/// address never becomes a member, and no address gets two rows.
pub proof fn lemma_run_keeps_valid(v: NodeView, events: Seq<Event>, k: int)
    requires
        v.wf(),
        0 <= k <= events.len(),
    ensures
        run(v, events, k).local_addr == v.local_addr,
        run(v, events, k).wf(),
        !has_member(run(v, events, k).table, v.local_addr),
    decreases k,
{
    if k > 0 {
        lemma_run_keeps_valid(v, events, k - 1);
        let w = run(v, events, k - 1);
        match events[k - 1] {
            Event::Join { target, now } => {},
            Event::Receive { msg, now } => {
                lemma_handle_keeps_valid(w, msg, now);
            },
            Event::Tick { extra, rnd, now } => {
                lemma_tick_keeps_valid(w, extra, rnd, now);
            },
        }
    }
}

/// A dead member stays dead until an acknowledgement from it arrives,
/// which makes it active: no event makes a dead member suspect.
pub proof fn lemma_dead_until_ack(v: NodeView, e: Event, addr: PeerAddr)
    requires
        v.wf(),
        state_of(v.table, addr) == Some(PeerState::Dead),
    ensures
        state_of(step(v, e).table, addr) == Some(
            if e matches Event::Receive { msg: Message::Ack { seq, from }, now } && from == addr {
                PeerState::Active
            } else {
                PeerState::Dead
            },
        ),
{
    let i = row_of(v.table, addr);
    match e {
        Event::Join { target, now } => {},
        Event::Receive { msg, now } => {
            match msg {
                Message::Ack { seq, from } => {
                    if from == addr {
                        lemma_ack_makes_active(v, seq, from, now);
                    } else {
                        let t = with_active(v.table, v.local_addr, from, now);
                        lemma_moves_keep_valid(v.table, v.local_addr, from, now);
                        assert(t[i] == v.table[i]);
                        lemma_row_unique(t, addr, i);
                    }
                },
                _ => {
                    lemma_only_ack_revives(v, msg, now, addr);
                },
            }
        },
        Event::Tick { extra, rnd, now } => {
            lemma_tick_keeps_dead(v, extra, rnd, now, addr);
        },
    }
}


/// The sequence counter moves exactly when a direct ping is sent: the
/// ping carries the counter's value, and the counter moves on by one
/// modulo 2^32. No other event touches it.
pub proof fn lemma_counter_follows_pings(v: NodeView, e: Event)
    ensures
        match ping_sent(v, e) {
            Some((seq, target)) => seq == v.self_seq && step(v, e).self_seq == seq_after(
                v.self_seq,
            ) && step(v, e).self_seq as int == (v.self_seq + 1) % 0x1_0000_0000,
            None => step(v, e).self_seq == v.self_seq,
        },
{
}

} // verus!
