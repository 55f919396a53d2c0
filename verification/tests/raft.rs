//! A service behind a Raft log: three members, driven in one thread.

use raft::eraftpb::{Entry, Message, MessageType};
use ticktape::codec::{Bytes, CodecError, Decode, Encode, Parsed};
use ticktape::raft_node::{LogEntry, ServiceNode, StepError};
use ticktape::seq::SeqNo;
use ticktape::service::{Ctx, Service, Step};

/// A replicated counter.
struct Counter {
    total: i64,
}

#[derive(PartialEq, Debug)]
enum Cmd {
    Add(i64),
    Reset,
}

impl Encode for Cmd {
    fn encodable(&self) -> bool {
        true
    }
    fn bytes(&self) -> Bytes {
        unreachable!()
    }
    fn encode(&self, out: &mut Vec<u8>) {
        match self {
            Cmd::Add(n) => {
                0u16.encode(out);
                n.encode(out);
            }
            Cmd::Reset => 1u16.encode(out),
        }
    }
    fn encoded_len(&self) -> usize {
        match self {
            Cmd::Add(_) => 10,
            Cmd::Reset => 2,
        }
    }
}

impl Decode for Cmd {
    fn parse(_: Bytes) -> Parsed {
        unreachable!()
    }
    fn same(&self, _: &Self) -> bool {
        unreachable!()
    }
    fn law_parse_is_bounded(_: Bytes) {}
    fn law_roundtrip(&self, _: Bytes) {}
    fn law_cut_ends_early(&self, _: Bytes) {}
    fn law_canonical(&self, _: &Self) {}
    fn decode(buf: &mut &[u8]) -> Result<Self, CodecError> {
        match u16::decode(buf)? {
            0 => Ok(Cmd::Add(i64::decode(buf)?)),
            1 => Ok(Cmd::Reset),
            _ => Err(CodecError::InvalidValue("enum discriminant")),
        }
    }
}

impl Service for Counter {
    type Input = Cmd;
    type Output = ();
    type Snapshot = i64;
    type Config = ();

    fn config(&self) {
        unreachable!()
    }
    fn state(&self) -> Bytes {
        unreachable!()
    }
    fn genesis_state(_: ()) -> Bytes {
        unreachable!()
    }
    fn step(_: (), _: Bytes, _: u64, _: u64, _: Bytes) -> Step {
        unreachable!()
    }
    fn timer_step(_: (), _: Bytes, _: u64, _: u64, _: u64) -> Step {
        unreachable!()
    }
    fn restored(_: (), _: Bytes) -> Bytes {
        unreachable!()
    }
    fn law_restore_inverts_snapshot(&self) {}

    fn genesis(_: &()) -> Self {
        Counter { total: 0 }
    }
    fn apply(&mut self, _: SeqNo, input: &Cmd, _: &mut Ctx<'_, ()>) {
        match input {
            Cmd::Add(n) => self.total += n,
            Cmd::Reset => self.total = 0,
        }
    }
    fn on_timer(&mut self, _: u64, _: &mut Ctx<'_, ()>) {}
    fn snapshot(&self) -> i64 {
        self.total
    }
    fn restore(total: i64, _: &()) -> Self {
        Counter { total }
    }
}

/// Ticks every member, then collects and routes what each has to send.
fn round(nodes: &mut [ServiceNode<Counter>]) {
    for n in nodes.iter_mut() {
        n.tick();
    }
    let mut inbox = Vec::new();
    for n in nodes.iter_mut() {
        inbox.extend(n.drive_ready());
    }
    for msg in inbox {
        let to = msg.get_to();
        if to == 0 {
            continue;
        }
        let idx = (to - 1) as usize;
        if let Some(target) = nodes.get_mut(idx) {
            target.step(msg).unwrap();
        }
    }
}

fn group() -> Vec<ServiceNode<Counter>> {
    let voters = vec![1u64, 2, 3];
    voters
        .iter()
        .map(|&id| ServiceNode::new(id, voters.clone(), &()).unwrap())
        .collect()
}

fn elect(nodes: &mut [ServiceNode<Counter>]) -> usize {
    nodes[0].campaign().unwrap();
    for _ in 0..100 {
        round(nodes);
        if nodes.iter().any(|n| n.is_leader()) {
            break;
        }
    }
    nodes
        .iter()
        .position(|n| n.is_leader())
        .expect("a leader must emerge")
}

#[test]
fn three_nodes_elect_replicate_and_converge() {
    let mut nodes = group();
    let leader = elect(&mut nodes);

    let mut expected = 0i64;
    for i in 1..=50i64 {
        nodes[leader].propose(&Cmd::Add(i)).unwrap();
        expected += i;
    }
    for _ in 0..400 {
        round(&mut nodes);
        if nodes.iter().all(|n| n.service().total == expected) {
            break;
        }
    }

    for (i, n) in nodes.iter().enumerate() {
        assert_eq!(
            n.service().total,
            expected,
            "node {} diverged: {} != {expected}",
            i + 1,
            n.service().total
        );
    }
}

#[test]
fn a_follower_cannot_propose() {
    let mut nodes = group();
    let leader = elect(&mut nodes);
    let follower = (0..3).find(|&i| i != leader).unwrap();
    assert!(
        nodes[follower].propose(&Cmd::Add(1)).is_err(),
        "a follower must not be able to propose"
    );
}

#[test]
fn a_follower_that_knows_its_leader_cannot_propose() {
    let mut nodes = group();
    let leader = elect(&mut nodes);
    for _ in 0..5 {
        round(&mut nodes);
    }
    let follower = (0..3).find(|&i| i != leader).unwrap();
    assert!(matches!(
        nodes[follower].propose(&Cmd::Add(1)),
        Err(StepError(raft::Error::ProposalDropped))
    ));
    nodes[leader].propose(&Cmd::Add(2)).unwrap();
    for _ in 0..20 {
        round(&mut nodes);
    }
    assert!(nodes.iter().all(|n| n.service().total == 2));
}

#[test]
fn a_leader_goes_on_leading() {
    let mut node: ServiceNode<Counter> = ServiceNode::new(1, vec![1], &()).unwrap();
    node.campaign().unwrap();
    node.drive_ready();
    // Heartbeats are due with every third tick.
    let due: Vec<bool> = (0..6).map(|_| node.tick()).collect();
    assert_eq!(due, vec![false, false, true, false, false, true]);
    node.campaign().unwrap();
    assert!(node.is_leader());
    node.propose(&Cmd::Add(1)).unwrap();
}

#[test]
fn stray_messages_are_refused() {
    let mut nodes = group();
    let mut local = Message::default();
    local.set_msg_type(MessageType::MsgHup);
    assert!(matches!(nodes[0].step(local), Err(StepError(raft::Error::StepLocalMsg))));
    let mut stranger = Message::default();
    stranger.set_msg_type(MessageType::MsgHeartbeatResponse);
    stranger.set_from(9);
    assert!(matches!(nodes[0].step(stranger), Err(StepError(raft::Error::StepPeerNotFound))));
}

#[test]
fn a_leader_that_hands_over_takes_no_proposals() {
    let mut nodes = group();
    let leader = elect(&mut nodes);
    let mut ask = Message::default();
    ask.set_msg_type(MessageType::MsgTransferLeader);
    ask.set_from(if leader == 0 { 2 } else { 1 });
    nodes[leader].step(ask).unwrap();
    assert!(matches!(
        nodes[leader].propose(&Cmd::Add(1)),
        Err(StepError(raft::Error::ProposalDropped))
    ));
}

#[test]
fn member_zero_is_refused() {
    assert!(ServiceNode::<Counter>::new(0, vec![1, 2, 3], &()).is_err());
}

#[test]
fn a_lone_member_leads_and_applies_its_own_entries() {
    let mut node: ServiceNode<Counter> = ServiceNode::new(1, vec![1], &()).unwrap();
    assert!(!node.is_leader());
    node.campaign().unwrap();
    assert!(node.drive_ready().is_empty());
    assert!(node.is_leader());
    node.propose(&Cmd::Add(7)).unwrap();
    node.propose(&Cmd::Add(8)).unwrap();
    for _ in 0..4 {
        node.tick();
        node.drive_ready();
    }
    assert_eq!(node.service().total, 15);
    assert!(node.applied_index() >= 3);
}

#[test]
fn entries_without_an_input_only_move_the_index() {
    let mut node: ServiceNode<Counter> = ServiceNode::new(1, vec![1], &()).unwrap();
    let before = node.service().total;
    let mut bytes = Vec::new();
    Cmd::Add(5).encode(&mut bytes);
    let entry = |index: u64, normal: bool, data: Vec<u8>| LogEntry {
        index,
        normal,
        data,
    };
    node.apply_committed(&vec![
        entry(1, true, Vec::new()),
        entry(2, false, bytes.clone()),
        entry(3, true, vec![9]),
        entry(4, true, bytes),
    ]);
    assert_eq!(node.service().total, before + 5);
    assert_eq!(node.applied_index(), 4);
}

#[test]
fn a_lone_member_refuses_messages_of_others() {
    let mut node: ServiceNode<Counter> = ServiceNode::new(1, vec![1], &()).unwrap();
    let mut vote = Message::default();
    vote.set_msg_type(MessageType::MsgRequestVote);
    vote.set_from(2);
    vote.set_term(5);
    assert!(node.step_any(vote).is_none());
    node.campaign().unwrap();
    node.drive_ready();
    assert!(node.is_leader());
}

#[test]
fn messages_that_no_member_sends_are_refused() {
    let mut nodes = group();
    // A commit index beyond the log, and a proposal of nothing.
    let mut beat = Message::default();
    beat.set_msg_type(MessageType::MsgHeartbeat);
    beat.set_from(2);
    beat.set_term(1);
    beat.set_commit(40);
    assert!(nodes[0].step_any(beat).is_none());
    let mut empty = Message::default();
    empty.set_msg_type(MessageType::MsgPropose);
    empty.set_from(2);
    assert!(nodes[0].step_any(empty).is_none());
    // An entry without a term, which no leader appends.
    let mut append = Message::default();
    append.set_msg_type(MessageType::MsgAppend);
    append.set_from(2);
    append.set_term(1);
    append.set_commit(1);
    let mut entry = Entry::default();
    entry.set_index(1);
    append.set_entries(vec![entry.clone()].into());
    assert!(nodes[0].step_any(append.clone()).is_none());
    // With a term it is taken in.
    let mut other = group();
    entry.set_term(1);
    append.set_entries(vec![entry].into());
    assert!(matches!(other[0].step_any(append), Some(Ok(()))));
    // A stranger's answer is one that raft itself refuses.
    let mut stranger = Message::default();
    stranger.set_msg_type(MessageType::MsgAppendResponse);
    stranger.set_from(9);
    assert!(matches!(
        nodes[0].step_any(stranger),
        Some(Err(StepError(raft::Error::StepPeerNotFound)))
    ));
    // The group goes on.
    let leader = elect(&mut nodes);
    nodes[leader].propose(&Cmd::Add(3)).unwrap();
}

#[test]
fn every_entry_is_applied_once() {
    let mut nodes = group();
    let leader = elect(&mut nodes);
    for _ in 0..10 {
        round(&mut nodes);
    }
    // The new leader's first entry, which is empty.
    let start = nodes[leader].applied_index();
    assert_eq!(start, 1);
    for k in 1..=20 {
        nodes[leader].propose(&Cmd::Add(k)).unwrap();
        for _ in 0..10 {
            round(&mut nodes);
        }
        assert_eq!(nodes[leader].applied_index(), start + k as u64);
        assert_eq!(nodes[leader].service().total, (1..=k).sum::<i64>());
    }
}

#[test]
fn a_lone_campaign_wins_and_a_leader_ignores_one() {
    let mut node: ServiceNode<Counter> = ServiceNode::new(1, vec![1], &()).unwrap();
    assert!(!node.is_leader());
    node.campaign().unwrap();
    assert!(node.is_leader());
    node.drive_ready();
    let at = node.applied_index();
    node.campaign().unwrap();
    assert!(node.drive_ready().is_empty());
    assert!(node.is_leader());
    assert_eq!(node.applied_index(), at);
}
