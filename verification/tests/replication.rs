//! Replication and failover of the demo bank, without a network.

use ticktape::codec::encode_to_vec;
use ticktape::commit::majority;
use ticktape::election::{Acceptor, Election, ElectionOutcome};
use ticktape::epoch::EpochChange;
use ticktape::frame::{Frame, FrameKind};
use ticktape::journal::FsyncPolicy;
use ticktape::node::{ManualClock, Node, NodeConfig};
use ticktape::rng::Rng;
use ticktape::seq::{SeqNo, Timestamp};
use ticktape::service::Service;
use ticktape::sim::demo::{gen_transfer, Bank};
use ticktape::sim::Invariants;
use ticktape::sim_storage::SimStorage;
use ticktape::transport::publisher::Publisher;
use ticktape::transport::replica::Replica;
use ticktape::transport::retransmit::{answer, PollStep, Receiver};
use ticktape::transport::store::MemStore;

fn input_frame(seq: u64, rng: &mut Rng) -> Frame {
    Frame::new(
        SeqNo(seq),
        Timestamp(seq * 1_000),
        1,
        FrameKind::Input,
        encode_to_vec(&gen_transfer(rng)),
    )
}

#[test]
fn kill_the_leader_and_continue() {
    let mut rng = Rng::new(1);

    // A three-node cluster: node 0 leads epoch 1; 1 and 2 are standbys.
    let mut acceptors: Vec<Acceptor> = (0..3).map(|_| Acceptor::new()).collect();
    let mut standby_1: Replica<Bank> = Replica::new(&());
    let mut standby_2: Replica<Bank> = Replica::new(&());

    // Epoch 1: the leader sequences 100 inputs. Standby 1 receives all of
    // them; standby 2 lags at 60.
    let mut stream: Vec<Frame> = (1..=100).map(|seq| input_frame(seq, &mut rng)).collect();
    for frame in &stream {
        standby_1.apply(frame).unwrap();
        acceptors[1].observe_seq(frame.seq);
        if frame.seq.0 <= 60 {
            standby_2.apply(frame).unwrap();
            acceptors[2].observe_seq(frame.seq);
        }
    }

    // The leader dies. Standby 1 suspects it and bids for epoch 2.
    let mut election = Election::new(2, 3);
    for id in [1usize, 2] {
        let reply = acceptors[id].handle(election.request());
        election.on_reply(id as u32, reply);
    }
    let ElectionOutcome::Won { epoch, sync_to } = election.outcome() else {
        panic!("standby 1 must win with a 2/3 majority");
    };
    assert_eq!(epoch, 2);
    assert_eq!(
        sync_to,
        SeqNo(100),
        "grants carry high-waters; the winner knows the majority's best"
    );
    assert_eq!(standby_1.seq(), sync_to);
    let fence = EpochChange {
        epoch,
        first_seq: sync_to.next(),
        schema_version: 0,
    }
    .to_frame(Timestamp(200_000), 1);
    stream.push(fence.clone());
    standby_1.apply(&fence).unwrap();

    let parsed = EpochChange::from_frame(&fence).unwrap();
    assert_eq!(parsed.epoch, 2);
    assert_eq!(parsed.first_seq, SeqNo(101));

    // Epoch 2: the promoted leader sequences 100 more inputs; the lagging
    // standby 2 catches up over the whole history.
    for seq in 102..=201 {
        let frame = input_frame(seq, &mut rng);
        stream.push(frame.clone());
        standby_1.apply(&frame).unwrap();
    }
    for frame in &stream[60..] {
        standby_2.apply(frame).unwrap();
    }

    assert_eq!(standby_1.seq(), SeqNo(201));
    assert_eq!(standby_2.seq(), SeqNo(201));
    assert_eq!(
        encode_to_vec(&standby_1.service().snapshot()),
        encode_to_vec(&standby_2.service().snapshot()),
        "continuity: every survivor computes the identical state"
    );
    standby_1.service().check().unwrap();
}

const SESSION: u64 = 0x5E55;

#[test]
fn follower_replica_reaches_bit_identical_state() {
    let mut store = MemStore::new();
    let mut publisher = Publisher::new(SESSION);
    let mut node: Node<Bank, ManualClock, SimStorage> = Node::open_with(
        NodeConfig::new(b"/leader"),
        (),
        ManualClock(Timestamp(1_000)),
        SimStorage::new(),
    )
    .unwrap();
    let stream = node.subscribe();

    let mut rng = Rng::new(42);
    for _ in 0..300 {
        node.submit(&gen_transfer(&mut rng)).unwrap();
    }
    let mut packets = Vec::new();
    for sequenced in node.drain(stream) {
        store.record(sequenced.clone());
        // Real loss: about 10% of what is published never arrives; the
        // retransmitter covers it.
        if sequenced.seq.0 % 10 != 3 {
            packets.push(publisher.publish(&sequenced));
        }
    }
    packets.push(publisher.heartbeat());

    // The follower hears both feeds.
    let mut receiver = Receiver::new(SeqNo(1));
    for packet in &packets {
        receiver.on_packet(packet).unwrap();
        receiver.on_packet(packet).unwrap();
    }
    let mut replica: Replica<Bank> = Replica::new(&());
    while replica.seq() < node.seq() {
        match receiver.step(true).unwrap() {
            PollStep::Deliver(frame) => {
                replica.apply(&frame).unwrap();
            }
            PollStep::Fill(mut fill) => {
                while let Some(request) = fill.request() {
                    let reply = answer(SESSION, &mut store, &request.encode()).unwrap();
                    receiver.on_reply(&mut fill, &reply).unwrap();
                }
            }
            PollStep::Wait => panic!("follower stalled at seq {}", replica.seq().0),
        }
    }

    assert_eq!(replica.seq(), node.seq());
    assert_eq!(
        encode_to_vec(&replica.service().snapshot()),
        encode_to_vec(&node.service().snapshot()),
        "replica state must be bit-identical to the leader"
    );
}

const VOTERS: usize = 5;
const FOLLOWERS: usize = VOTERS - 1;
const LEADER_ID: u32 = 0;

/// The commit watermark by another way: the majority-th highest high-water
/// among the leader and the followers that have acked.
fn reference_watermark(leader_tip: u64, follower_highs: &[Option<u64>]) -> u64 {
    let mut waters: Vec<u64> = vec![leader_tip];
    waters.extend(follower_highs.iter().flatten().copied());
    if waters.len() < majority(VOTERS) {
        return 0;
    }
    waters.sort_unstable_by(|a, b| b.cmp(a));
    waters[majority(VOTERS) - 1]
}

fn open_leader(storage: SimStorage) -> Node<Bank, ManualClock, SimStorage> {
    let mut config = NodeConfig::new(b"/j").with_quorum(VOTERS, LEADER_ID);
    config.journal.fsync = FsyncPolicy::EveryFrame;
    Node::open_with(config, (), ManualClock(Timestamp(1)), storage).unwrap()
}

fn run_quorum(seed: u64, steps: u32, inject_crashes: bool) {
    let mut node = open_leader(SimStorage::new());

    let mut rng = Rng::new(seed);
    let mut follower_highs: Vec<Option<u64>> = vec![None; FOLLOWERS];
    let mut kinds: Vec<FrameKind> = Vec::new();
    let mut released: Vec<u64> = Vec::new();
    let mut last_watermark = 0u64;

    for _ in 0..steps {
        match rng.below(100) {
            0..=59 => {
                let (seq, out) = node.submit(&gen_transfer(&mut rng)).unwrap();
                kinds.push(FrameKind::Input);
                assert_eq!(seq.0 as usize, kinds.len());
                assert!(
                    out.is_empty(),
                    "seed {seed}: submit released with only the leader's ack (1/{VOTERS})"
                );
            }
            60..=64 => {
                let seq = node.tick().unwrap();
                kinds.push(FrameKind::Tick);
                assert_eq!(seq.0 as usize, kinds.len());
            }
            _ => {
                let tip = node.seq().0;
                let f = rng.below(FOLLOWERS as u64) as usize;
                let target = rng.below(tip + 1);
                let pairs = node.record_ack(f as u32 + 1, SeqNo(target));

                let prev = follower_highs[f].unwrap_or(0);
                follower_highs[f] = Some(prev.max(target));

                for (seq, _outputs) in pairs {
                    assert_eq!(
                        kinds[seq.0 as usize - 1],
                        FrameKind::Input,
                        "seed {seed}: released outputs for a non-input frame at {}",
                        seq.0
                    );
                    if let Some(&last) = released.last() {
                        assert!(
                            seq.0 > last,
                            "seed {seed}: release out of order / duplicated: {} after {last}",
                            seq.0
                        );
                    }
                    released.push(seq.0);
                }
            }
        }

        let wm = node.commit_watermark().0;
        if !inject_crashes {
            assert_eq!(
                wm,
                reference_watermark(node.seq().0, &follower_highs),
                "seed {seed}: runtime watermark disagrees with the reference model"
            );
        }
        assert!(wm >= last_watermark, "seed {seed}: watermark regressed");
        last_watermark = wm;

        assert!(
            released.last().copied().unwrap_or(0) <= node.seq().0,
            "seed {seed}: released a seq the journal does not hold"
        );

        if inject_crashes && rng.chance(1, 40) {
            let tip_before = node.seq().0;
            let max_released_before = released.last().copied().unwrap_or(0);
            let mut storage = node.into_storage();
            storage.crash(&mut rng, false);
            node = open_leader(storage);
            assert_eq!(
                node.seq().0,
                tip_before,
                "seed {seed}: synced journal lost frames across a crash"
            );
            assert!(
                max_released_before <= node.seq().0,
                "seed {seed}: a committed output was lost across a crash"
            );
            last_watermark = node.commit_watermark().0;
            assert_eq!(last_watermark, tip_before, "seed {seed}: reseed baseline");
        }
    }

    if !inject_crashes {
        let wm = node.commit_watermark().0;
        let expected: Vec<u64> = (1..=wm)
            .filter(|&s| kinds[s as usize - 1] == FrameKind::Input)
            .collect();
        assert_eq!(
            released, expected,
            "seed {seed}: released set is not exactly the committed inputs"
        );
    }
}

#[test]
fn runtime_quorum_release_matches_reference_across_seeds() {
    for seed in 0..300 {
        run_quorum(seed, 500, false);
    }
}

#[test]
fn runtime_quorum_survives_crashes_without_losing_commits() {
    for seed in 0..200 {
        run_quorum(seed, 500, true);
    }
}

#[test]
fn a_replica_goes_on_behind_a_snapshot() {
    let mut rng = Rng::new(3);
    let stream: Vec<Frame> = (1..=40).map(|seq| input_frame(seq, &mut rng)).collect();
    let mut whole: Replica<Bank> = Replica::new(&());
    for frame in &stream[..25] {
        whole.apply(frame).unwrap();
    }
    let snapshot = whole.service().snapshot();
    let mut late: Replica<Bank> = Replica::from_snapshot(snapshot, SeqNo(25), &());
    assert_eq!(late.seq(), SeqNo(25));
    assert!(late.apply(&stream[20]).is_err());
    for frame in &stream[25..] {
        whole.apply(frame).unwrap();
        late.apply(frame).unwrap();
    }
    assert_eq!(late.seq(), SeqNo(40));
    assert_eq!(late.service().snapshot(), whole.service().snapshot());
}
