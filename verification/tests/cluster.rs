//! Commit tracking, epoch elections, fences and the vote wire format.

use ticktape::codec::encode_to_vec;
use ticktape::commit::CommitTracker;
use ticktape::election::{
    Acceptor, Election, ElectionOutcome, ElectionRun, VoteReply, VoteRequest,
};
use ticktape::epoch::EpochChange;
use ticktape::frame::{Frame, FrameKind};
use ticktape::persist::{PersistError, PersistentAcceptor};
use ticktape::rng::Rng;
use ticktape::seq::{SeqNo, Timestamp};
use ticktape::sim_storage::SimStorage;
use ticktape::storage::{Storage, StorageFile};
use ticktape::votes::{
    answer_vote, decode_reply, decode_request, encode_reply, encode_request,
};

#[test]
fn watermark_is_majority_th_highest() {
    let mut tracker = CommitTracker::new(5);
    assert_eq!(tracker.record_ack(0, SeqNo(10)), SeqNo::genesis());
    assert_eq!(tracker.record_ack(1, SeqNo(8)), SeqNo::genesis());
    // Third ack forms a majority: committed = min of top-3 = 5.
    assert_eq!(tracker.record_ack(2, SeqNo(5)), SeqNo(5));
    // A slow fourth replica doesn't lower the watermark.
    assert_eq!(tracker.record_ack(3, SeqNo(2)), SeqNo(5));
    // The slow one catching up raises it: top-3 = [10, 8, 7] -> 7.
    assert_eq!(tracker.record_ack(3, SeqNo(7)), SeqNo(7));
}

#[test]
fn acks_are_monotonic() {
    let mut tracker = CommitTracker::new(3);
    tracker.record_ack(0, SeqNo(9));
    tracker.record_ack(0, SeqNo(4)); // stale ack must not regress
    assert_eq!(tracker.record_ack(1, SeqNo(9)), SeqNo(9));
}

#[test]
fn single_candidate_wins_majority() {
    let mut acceptors: Vec<Acceptor> = (0..3).map(|_| Acceptor::new()).collect();
    acceptors[1].observe_seq(SeqNo(42));
    let mut election = Election::new(1, 3);
    for (i, acceptor) in acceptors.iter_mut().enumerate() {
        let reply = acceptor.handle(election.request());
        election.on_reply(i as u32, reply);
    }
    assert_eq!(
        election.outcome(),
        ElectionOutcome::Won { epoch: 1, sync_to: SeqNo(42) },
        "sync_to must be the max granted high-water"
    );
}

#[test]
fn at_most_one_winner_per_epoch() {
    // Two candidates race for epoch 1 across 5 acceptors, with every
    // possible split of first-arrival order: never two winners.
    for split in 0..=5usize {
        let mut acceptors: Vec<Acceptor> = (0..5).map(|_| Acceptor::new()).collect();
        let mut a = Election::new(1, 5);
        let mut b = Election::new(1, 5);
        for (i, acceptor) in acceptors.iter_mut().enumerate() {
            // First `split` acceptors hear A first, the rest hear B first.
            let (first, second): (&mut Election, &mut Election) =
                if i < split { (&mut a, &mut b) } else { (&mut b, &mut a) };
            let reply = acceptor.handle(first.request());
            first.on_reply(i as u32, reply);
            let reply = acceptor.handle(second.request());
            second.on_reply(i as u32, reply);
        }
        let winners = [a.outcome(), b.outcome()]
            .iter()
            .filter(|o| matches!(o, ElectionOutcome::Won { .. }))
            .count();
        assert!(winners <= 1, "split {split}: two winners for one epoch");
    }
}

#[test]
fn rejection_reveals_higher_promise() {
    let mut acceptor = Acceptor::new();
    assert!(matches!(acceptor.handle(VoteRequest { epoch: 5 }), VoteReply::Grant { .. }));
    let mut election = Election::new(3, 1);
    let reply = acceptor.handle(election.request());
    assert_eq!(election.on_reply(0, reply), ElectionOutcome::Lost { highest_promised: 5 });
}

#[test]
fn duplicate_grants_counted_once() {
    let mut acceptor = Acceptor::new();
    let mut election = Election::new(1, 3);
    let reply = acceptor.handle(election.request());
    election.on_reply(0, reply);
    assert_eq!(election.on_reply(0, reply), ElectionOutcome::Pending);
}

#[test]
fn frame_roundtrip() {
    let change = EpochChange { epoch: 7, first_seq: SeqNo(1234), schema_version: 3 };
    let frame = change.to_frame(Timestamp(9), 1);
    assert_eq!(frame.seq, SeqNo(1234));
    assert_eq!(frame.kind, FrameKind::EpochChange);
    assert_eq!(EpochChange::from_frame(&frame).unwrap(), change);
}

#[test]
fn decodes_legacy_two_field_fence_as_schema_zero() {
    // A fence without a schema version (payload = (epoch, first_seq)) must
    // still decode, defaulting to schema 0.
    let legacy = Frame::new(
        SeqNo(5),
        Timestamp(1),
        1,
        FrameKind::EpochChange,
        encode_to_vec(&(9u64, 5u64)),
    );
    let change = EpochChange::from_frame(&legacy).unwrap();
    assert_eq!(change.epoch, 9);
    assert_eq!(change.first_seq, SeqNo(5));
    assert_eq!(change.schema_version, 0);
}

#[test]
fn request_reply_roundtrip() {
    let g = VoteReply::Grant { epoch: 7, high_water: SeqNo(42) };
    assert_eq!(decode_reply(&encode_reply(g)), Some(g));
    let r = VoteReply::Reject { promised: 9 };
    assert_eq!(decode_reply(&encode_reply(r)), Some(r));
    let q = VoteRequest { epoch: 3 };
    assert_eq!(decode_request(&encode_request(q)), Some(q));
}

#[test]
fn damaged_votes_do_not_decode() {
    let mut bytes = encode_request(VoteRequest { epoch: 3 });
    bytes[9] ^= 1;
    assert_eq!(decode_request(&bytes), None);
    let mut bytes = encode_reply(VoteReply::Reject { promised: 9 });
    bytes[5] ^= 1;
    assert_eq!(decode_reply(&bytes), None);
    assert_eq!(decode_reply(&[]), None);
}

/// Voters with their disks; a voter that is down answers nothing.
struct Voters {
    voters: Vec<(PersistentAcceptor, SimStorage, bool)>,
}

impl Voters {
    fn new(up: &[bool]) -> Voters {
        let voters = up
            .iter()
            .map(|up| {
                let storage = SimStorage::new();
                (PersistentAcceptor::open(b"/a/state", &storage).unwrap(), storage, *up)
            })
            .collect();
        Voters { voters }
    }

    fn run_election(&mut self, epoch: u64) -> ElectionOutcome {
        let mut run = ElectionRun::new(epoch, self.voters.len() as u32);
        while let Some(voter) = run.next_voter() {
            let (acceptor, storage, up) = &mut self.voters[voter as usize];
            let answer = if *up {
                let request = encode_request(VoteRequest { epoch });
                answer_vote(acceptor, storage, &request).and_then(|bytes| decode_reply(&bytes))
            } else {
                None
            };
            run.on_answer(answer);
        }
        run.outcome()
    }
}

#[test]
fn candidate_wins_majority_over_the_network() {
    let mut voters = Voters::new(&[true, true, true]);
    match voters.run_election(1) {
        ElectionOutcome::Won { epoch: 1, .. } => {}
        other => panic!("expected win, got {other:?}"),
    }
}

#[test]
fn no_two_winners_for_one_epoch_over_the_network() {
    let mut voters = Voters::new(&[true; 5]);
    // First candidate wins epoch 2.
    assert!(matches!(voters.run_election(2), ElectionOutcome::Won { .. }));
    // A second candidate for the SAME epoch must lose: the acceptors
    // already promised 2.
    assert!(matches!(
        voters.run_election(2),
        ElectionOutcome::Lost { highest_promised: 2 }
    ));
    // A higher epoch wins.
    assert!(matches!(voters.run_election(3), ElectionOutcome::Won { .. }));
}

#[test]
fn loses_without_a_reachable_majority() {
    // Only one of three acceptors is live; no majority.
    let mut voters = Voters::new(&[true, false, false]);
    assert!(!matches!(voters.run_election(1), ElectionOutcome::Won { .. }));
}

const STATE: &[u8] = b"/acceptor/acceptor.state";

#[test]
fn promised_survives_reopen() {
    let mut storage = SimStorage::new();
    {
        let mut acc = PersistentAcceptor::open(STATE, &storage).unwrap();
        assert!(matches!(
            acc.handle(&mut storage, VoteRequest { epoch: 5 }).unwrap(),
            VoteReply::Grant { epoch: 5, .. }
        ));
    }
    // Reopen: the promise to 5 must be remembered.
    let mut acc = PersistentAcceptor::open(STATE, &storage).unwrap();
    assert_eq!(acc.promised(), 5);
    // Granting epoch 5 again would be a double-election: must reject.
    assert!(matches!(
        acc.handle(&mut storage, VoteRequest { epoch: 5 }).unwrap(),
        VoteReply::Reject { promised: 5 }
    ));
    // A higher epoch still wins and re-persists.
    assert!(matches!(
        acc.handle(&mut storage, VoteRequest { epoch: 6 }).unwrap(),
        VoteReply::Grant { epoch: 6, .. }
    ));
}

#[test]
fn corrupt_state_is_a_hard_error() {
    let mut storage = SimStorage::new();
    {
        let mut acc = PersistentAcceptor::open(STATE, &storage).unwrap();
        acc.handle(&mut storage, VoteRequest { epoch: 3 }).unwrap();
    }
    // Corrupt the record.
    let mut bytes = storage.read(STATE).unwrap();
    bytes[5] ^= 0xFF;
    storage.remove(STATE).unwrap();
    let mut file = storage.create_new(STATE).unwrap();
    file.write_all(&mut storage, &bytes).unwrap();
    // Recovery must refuse rather than silently reset promised to 0.
    assert!(matches!(
        PersistentAcceptor::open(STATE, &storage),
        Err(PersistError::Corrupt(_))
    ));
}

#[test]
fn fresh_acceptor_starts_at_zero() {
    let storage = SimStorage::new();
    let acc = PersistentAcceptor::open(STATE, &storage).unwrap();
    assert_eq!(acc.promised(), 0);
}

#[test]
fn a_failed_crash_keeps_the_older_promise() {
    let mut storage = SimStorage::new();
    let mut acc = PersistentAcceptor::open(STATE, &storage).unwrap();
    acc.handle(&mut storage, VoteRequest { epoch: 4 }).unwrap();
    storage.crash(&mut Rng::new(3), true);
    let acc = PersistentAcceptor::open(STATE, &storage).unwrap();
    assert_eq!(acc.promised(), 4);
}

const PATH: &[u8] = b"/acc/state";

#[test]
fn promised_is_monotonic_and_no_epoch_granted_twice_under_crashes() {
    for seed in 0..300u64 {
        let mut rng = Rng::new(seed);
        let mut storage = SimStorage::new();
        let mut acc = PersistentAcceptor::open(PATH, &storage).unwrap();

        // Every epoch that was ever GRANTED, to prove none is granted twice.
        let mut granted: Vec<u64> = Vec::new();
        // The highest promise observed to survive a crash durably.
        let mut floor = 0u64;
        let mut bricked = false;

        for _ in 0..200 {
            match rng.below(10) {
                // Crash: keep synced bytes, drop unsynced tail; then reopen.
                0 | 1 => {
                    storage.crash(&mut rng, true);
                    match PersistentAcceptor::open(PATH, &storage) {
                        Ok(reopened) => {
                            assert!(
                                reopened.promised() >= floor,
                                "seed {seed}: promised regressed on reopen: {} < floor {floor}",
                                reopened.promised()
                            );
                            acc = reopened;
                        }
                        Err(_) => {
                            // A torn state file bricks this acceptor: a lost
                            // vote, which is safe.
                            bricked = true;
                            break;
                        }
                    }
                }
                // Vote request at a seeded epoch (sometimes stale, sometimes
                // ahead), which exercises both grant and reject paths.
                _ => {
                    let epoch = 1 + rng.below(floor + 5);
                    // A durable-write failure returns Err; treat as no vote.
                    let Ok(reply) = acc.handle(&mut storage, VoteRequest { epoch }) else {
                        continue;
                    };
                    match reply {
                        VoteReply::Grant { epoch: e, .. } => {
                            assert_eq!(e, epoch, "seed {seed}: grant echoed wrong epoch");
                            assert!(
                                !granted.contains(&e),
                                "seed {seed}: epoch {e} granted twice"
                            );
                            granted.push(e);
                            floor = floor.max(e);
                            assert!(acc.promised() >= e);
                        }
                        VoteReply::Reject { promised } => {
                            assert!(
                                epoch <= promised,
                                "seed {seed}: rejected epoch {epoch} > promised {promised}"
                            );
                        }
                    }
                }
            }
        }

        if !bricked {
            assert!(acc.promised() >= floor, "seed {seed}: final promised below floor");
        }
    }
}

const NODES: usize = 5;

/// Fisher-Yates over `items` using the seeded generator.
fn shuffle<T>(items: &mut [T], rng: &mut Rng) {
    for i in (1..items.len()).rev() {
        let j = rng.below(i as u64 + 1) as usize;
        items.swap(i, j);
    }
}

#[test]
fn dueling_candidates_never_both_win_across_acceptor_crashes() {
    for seed in 0..300u64 {
        let mut rng = Rng::new(seed);

        // Each acceptor has its own simulated disk. `None` once a torn-write
        // crash bricks it (a safely lost voter).
        let mut storages: Vec<SimStorage> = (0..NODES).map(|_| SimStorage::new()).collect();
        let mut accs: Vec<Option<PersistentAcceptor>> = storages
            .iter()
            .map(|s| Some(PersistentAcceptor::open(PATH, s).unwrap()))
            .collect();

        // Every epoch each acceptor has granted: the double-grant tripwire.
        let mut granted: Vec<std::collections::BTreeSet<u64>> =
            vec![std::collections::BTreeSet::new(); NODES];

        // Each round bids a fresh, monotonically increasing epoch.
        for target in 1u64..=40 {
            // Two candidates duel for the SAME epoch.
            let mut duel = [Election::new(target, NODES), Election::new(target, NODES)];

            let mut order: Vec<(usize, usize)> = Vec::new(); // (candidate, acceptor)
            for a in 0..NODES {
                for c in 0..2 {
                    order.push((c, a));
                }
            }
            shuffle(&mut order, &mut rng);

            for (c, a) in order {
                // Occasionally crash + restart this acceptor right now.
                if rng.chance(1, 6) {
                    storages[a].crash(&mut rng, true);
                    accs[a] = PersistentAcceptor::open(PATH, &storages[a]).ok();
                }
                // Occasionally the acceptor is simply unreachable this round.
                if rng.chance(1, 5) {
                    continue;
                }
                let Some(acc) = accs[a].as_mut() else {
                    continue; // bricked by a torn write: a lost voter
                };
                let request = duel[c].request();
                let Ok(reply) = acc.handle(&mut storages[a], request) else {
                    continue; // durable-write failure: no vote
                };
                if let VoteReply::Grant { epoch, .. } = reply {
                    // An acceptor never grants an epoch it already granted,
                    // not even across a crash and restart.
                    assert!(
                        granted[a].insert(epoch),
                        "seed {seed}: acceptor {a} granted epoch {epoch} twice",
                    );
                    assert!(
                        acc.promised() >= epoch,
                        "seed {seed}: promised below a just-granted epoch",
                    );
                }
                duel[c].on_reply(a as u32, reply);
            }

            let winners = duel
                .iter()
                .filter(|e| matches!(e.outcome(), ElectionOutcome::Won { .. }))
                .count();
            assert!(
                winners <= 1,
                "seed {seed}: {winners} winners for epoch {target} across acceptor crashes",
            );
        }
    }
}
