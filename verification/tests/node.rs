//! The single node end to end: sequencing, crash recovery, replay
//! equivalence, deterministic time and the in-process stream.

use ticktape::codec::{Bytes, CodecError, Decode, Encode, Parsed};
use ticktape::epoch::EpochChange;
use ticktape::frame::{Frame, FrameKind};
use ticktape::journal::{FsyncPolicy, Journal, JournalConfig};
use ticktape::node::{ManualClock, Node, NodeConfig, NodeError};
use ticktape::seq::{SeqNo, Timestamp};
use ticktape::service::{Ctx, Service, Step};
use ticktape::sim_storage::SimStorage;
use ticktape::storage::{Storage, StorageFile};

/// A service exercising state, outputs and deterministic time: it records
/// the timestamp of the last `Bump` and a running total.
struct Meter {
    total: i64,
    last_bump_at: Timestamp,
}

#[derive(PartialEq, Debug)]
enum Cmd {
    Bump(i64),
    Zero,
}

impl Encode for Cmd {
    fn encodable(&self) -> bool {
        true
    }
    fn bytes(&self) -> Bytes {
        unreachable!()
    }
    fn encode(&self, out: &mut Vec<u8>) {
        match self {
            Cmd::Bump(n) => {
                0u16.encode(out);
                n.encode(out);
            }
            Cmd::Zero => 1u16.encode(out),
        }
    }
    fn encoded_len(&self) -> usize {
        match self {
            Cmd::Bump(_) => 10,
            Cmd::Zero => 2,
        }
    }
}

impl Decode for Cmd {
    fn parse(_: Bytes) -> Parsed {
        unreachable!()
    }
    fn same(&self, _: &Self) -> bool {
        unreachable!()
    }
    fn law_parse_is_bounded(_: Bytes) {}
    fn law_roundtrip(&self, _: Bytes) {}
    fn law_cut_ends_early(&self, _: Bytes) {}
    fn law_canonical(&self, _: &Self) {}
    fn decode(buf: &mut &[u8]) -> Result<Self, CodecError> {
        match u16::decode(buf)? {
            0 => Ok(Cmd::Bump(i64::decode(buf)?)),
            1 => Ok(Cmd::Zero),
            _ => Err(CodecError::InvalidValue("enum discriminant")),
        }
    }
}

#[derive(PartialEq, Debug)]
enum Evt {
    Total(i64),
    At(u64),
}

impl Encode for Evt {
    fn encodable(&self) -> bool {
        true
    }
    fn bytes(&self) -> Bytes {
        unreachable!()
    }
    fn encode(&self, out: &mut Vec<u8>) {
        match self {
            Evt::Total(n) => {
                0u16.encode(out);
                n.encode(out);
            }
            Evt::At(n) => {
                1u16.encode(out);
                n.encode(out);
            }
        }
    }
    fn encoded_len(&self) -> usize {
        10
    }
}

impl Service for Meter {
    type Input = Cmd;
    type Output = Evt;
    type Snapshot = (i64, u64);
    type Config = ();
    fn config(&self) {}
    fn state(&self) -> Bytes {
        unreachable!()
    }
    fn genesis_state(_: ()) -> Bytes {
        unreachable!()
    }
    fn step(_: (), _: Bytes, _: u64, _: u64, _: Bytes) -> Step {
        unreachable!()
    }
    fn timer_step(_: (), _: Bytes, _: u64, _: u64, _: u64) -> Step {
        unreachable!()
    }
    fn restored(_: (), _: Bytes) -> Bytes {
        unreachable!()
    }
    fn law_restore_inverts_snapshot(&self) {}

    fn genesis(_: &()) -> Self {
        Meter { total: 0, last_bump_at: Timestamp::zero() }
    }

    fn apply(&mut self, _seq: SeqNo, input: &Cmd, ctx: &mut Ctx<'_, Evt>) {
        match input {
            Cmd::Bump(n) => {
                self.total += n;
                self.last_bump_at = ctx.now();
                ctx.emit(Evt::At(ctx.now().as_nanos()));
            }
            Cmd::Zero => self.total = 0,
        }
        ctx.emit(Evt::Total(self.total));
    }

    fn on_timer(&mut self, _id: u64, _ctx: &mut Ctx<'_, Evt>) {}

    fn snapshot(&self) -> (i64, u64) {
        (self.total, self.last_bump_at.as_nanos())
    }

    fn restore(snap: (i64, u64), _: &()) -> Self {
        Meter { total: snap.0, last_bump_at: Timestamp(snap.1) }
    }
}

const DIR: &[u8] = b"/node";

fn config() -> NodeConfig {
    let mut config = NodeConfig::new(DIR);
    config.journal.fsync = FsyncPolicy::EveryFrame;
    config
}

fn snap_config(every: u64) -> NodeConfig {
    let mut config = config();
    config.snapshot_every = Some(every);
    config
}

fn open(config: NodeConfig, at: u64, disk: SimStorage) -> Node<Meter, ManualClock, SimStorage> {
    Node::open_with(config, (), ManualClock(Timestamp(at)), disk).unwrap()
}

#[test]
fn sequences_and_emits() {
    let mut node = open(config(), 100, SimStorage::new());

    let (seq, outs) = node.submit(&Cmd::Bump(5)).unwrap();
    assert_eq!(seq, SeqNo(1));
    assert_eq!(outs, vec![Evt::At(100), Evt::Total(5)]);

    let (seq, outs) = node.submit(&Cmd::Bump(-2)).unwrap();
    assert_eq!(seq, SeqNo(2));
    assert_eq!(outs, vec![Evt::At(100), Evt::Total(3)]);
    assert_eq!(node.service().total, 3);
}

#[test]
fn crash_recovery_rebuilds_identical_state() {
    let disk = {
        let mut node = open(config(), 7, SimStorage::new());
        for i in 1..=20 {
            node.submit(&Cmd::Bump(i)).unwrap();
        }
        node.submit(&Cmd::Zero).unwrap();
        node.submit(&Cmd::Bump(41)).unwrap();
        // No clean shutdown: the journal was synced frame by frame.
        node.into_storage()
    };
    let mut node = open(config(), 9, disk);
    assert_eq!(node.seq(), SeqNo(22));
    assert_eq!(node.service().total, 41);
    assert_eq!(node.service().last_bump_at, Timestamp(7), "time must replay from the journal");

    // New inputs continue the total order.
    let (seq, _) = node.submit(&Cmd::Bump(1)).unwrap();
    assert_eq!(seq, SeqNo(23));
    assert_eq!(node.service().total, 42);
}

#[test]
fn replay_equivalence_holds() {
    let mut node = open(config(), 50, SimStorage::new());
    for i in 0..100 {
        node.submit(&if i % 7 == 0 { Cmd::Zero } else { Cmd::Bump(i) }).unwrap();
    }
    assert!(node.verify_replay().unwrap());
}

#[test]
fn ticks_advance_time_without_inputs() {
    let disk = {
        let mut node = open(config(), 10, SimStorage::new());
        node.tick().unwrap(); // seq 1 at t=10
        node.submit(&Cmd::Bump(1)).unwrap(); // seq 2
        node.into_storage()
    };
    // Recovery must count the tick in the seq space.
    let node = open(config(), 99, disk);
    assert_eq!(node.seq(), SeqNo(2));
    assert_eq!(node.service().total, 1);
}

#[test]
fn sequenced_time_never_goes_backwards() {
    let mut node = open(config(), 100, SimStorage::new());
    node.submit(&Cmd::Bump(1)).unwrap();
    // The clock steps backwards: sequenced time must clamp, not regress.
    let mut node = open(config(), 30, node.into_storage());
    node.submit(&Cmd::Bump(2)).unwrap();
    assert_eq!(
        node.service().last_bump_at,
        Timestamp(100),
        "clamped to the journal's high-water timestamp"
    );
}

#[test]
fn bus_delivers_sequenced_frames_in_order() {
    let mut node = open(config(), 5, SimStorage::new());
    let rx = node.subscribe();
    node.submit(&Cmd::Bump(1)).unwrap();
    node.tick().unwrap();
    node.submit(&Cmd::Zero).unwrap();

    let frames = node.drain(rx);
    assert_eq!(frames.len(), 3);
    assert_eq!(frames[0].seq, SeqNo(1));
    assert_eq!(frames[0].kind, FrameKind::Input);
    assert_eq!(frames[1].kind, FrameKind::Tick);
    assert_eq!(frames[2].seq, SeqNo(3));
    assert!(node.drain(rx).is_empty());
}

#[test]
fn snapshots_enable_fast_recovery() {
    let disk = {
        let mut node = open(snap_config(10), 7, SimStorage::new());
        for i in 1..=25 {
            node.submit(&Cmd::Bump(i)).unwrap();
        }
        // 25 inputs and interleaved snapshot marks; then the process is gone.
        node.into_storage()
    };
    let node = open(snap_config(10), 9, disk);
    let info = node.recovery_info();
    let snap_seq = info.snapshot_seq.expect("must recover from a snapshot");
    assert!(snap_seq.as_u64() >= 20, "stale snapshot used: {info:?}");
    assert!(info.inputs_replayed < 25, "full replay despite snapshot: {info:?}");
    // State identical to what full replay computes.
    assert_eq!(node.service().total, (1..=25).sum::<i64>());
    assert_eq!(node.service().last_bump_at, Timestamp(7));
}

#[test]
fn corrupt_snapshot_falls_back_and_state_is_still_right() {
    let mut disk = {
        let mut node = open(snap_config(5), 3, SimStorage::new());
        for i in 1..=12 {
            node.submit(&Cmd::Bump(i)).unwrap();
        }
        node.into_storage()
    };
    // Corrupt every snapshot file on disk.
    for path in disk.list_dir(DIR).unwrap() {
        if path.ends_with(b".snap") {
            let mut bytes = disk.read(&path).unwrap();
            let idx = bytes.len() / 2;
            bytes[idx] ^= 0xFF;
            disk.remove(&path).unwrap();
            let mut file = disk.create_new(&path).unwrap();
            file.write_all(&mut disk, &bytes).unwrap();
            file.sync_data(&mut disk).unwrap();
        }
    }
    let node = open(snap_config(5), 9, disk);
    assert_eq!(node.recovery_info().snapshot_seq, None, "corrupt snapshots must be skipped");
    assert_eq!(node.service().total, (1..=12).sum::<i64>());
}

#[test]
fn snapshot_marks_appear_in_the_stream() {
    let mut node = open(snap_config(3), 1, SimStorage::new());
    let rx = node.subscribe();
    for i in 1..=3 {
        node.submit(&Cmd::Bump(i)).unwrap();
    }
    let kinds: Vec<_> = node.drain(rx).iter().map(|f| f.kind).collect();
    assert_eq!(
        kinds,
        vec![FrameKind::Input, FrameKind::Input, FrameKind::Input, FrameKind::SnapshotMark],
        "mark must follow the frame that hit the cadence"
    );
    // verify_replay still holds with marks in the journal.
    assert!(node.verify_replay().unwrap());
    assert_eq!(node.latest_snapshot_seq(), Some(SeqNo(3)));
}

/// Minimal service: each push emits its number so that the released outputs
/// show which inputs committed.
struct Log {
    count: u64,
}

impl Service for Log {
    type Input = u64;
    type Output = u64;
    type Snapshot = u64;
    type Config = ();
    fn config(&self) {}
    fn state(&self) -> Bytes {
        unreachable!()
    }
    fn genesis_state(_: ()) -> Bytes {
        unreachable!()
    }
    fn step(_: (), _: Bytes, _: u64, _: u64, _: Bytes) -> Step {
        unreachable!()
    }
    fn timer_step(_: (), _: Bytes, _: u64, _: u64, _: u64) -> Step {
        unreachable!()
    }
    fn restored(_: (), _: Bytes) -> Bytes {
        unreachable!()
    }
    fn law_restore_inverts_snapshot(&self) {}

    fn genesis(_: &()) -> Self {
        Log { count: 0 }
    }

    fn apply(&mut self, _seq: SeqNo, input: &u64, ctx: &mut Ctx<'_, u64>) {
        self.count += 1;
        ctx.emit(*input);
    }

    fn on_timer(&mut self, _id: u64, _ctx: &mut Ctx<'_, u64>) {}

    fn snapshot(&self) -> u64 {
        self.count
    }

    fn restore(snap: u64, _: &()) -> Self {
        Log { count: snap }
    }
}

/// A quorum leader that is replica 0 of `voters`.
fn leader(voters: usize) -> Node<Log, ManualClock, SimStorage> {
    let mut config = NodeConfig::new(DIR).with_quorum(voters, 0);
    config.journal.fsync = FsyncPolicy::EveryFrame;
    Node::open_with(config, (), ManualClock(Timestamp(1)), SimStorage::new()).unwrap()
}

#[test]
fn outputs_are_withheld_until_a_majority_acks() {
    let mut node = leader(3);

    // The leader is only 1 of 3 voters, so nothing commits yet.
    for i in 1..=3 {
        let (seq, released) = node.submit(&i).unwrap();
        assert_eq!(seq, SeqNo(i));
        assert!(released.is_empty(), "seq {i} released with only the leader's own ack (1/3)");
    }
    assert_eq!(node.commit_watermark(), SeqNo::genesis());
    assert_eq!(node.pending_commit_count(), 3);

    // Follower 1 acks up to seq 2: a majority holds everything through 2.
    let released = node.record_ack(1, SeqNo(2));
    assert_eq!(
        released,
        vec![(SeqNo(1), vec![1]), (SeqNo(2), vec![2])],
        "a 2/3 majority through seq 2 must release seqs 1 and 2 in order"
    );
    assert_eq!(node.commit_watermark(), SeqNo(2));
    assert_eq!(node.pending_commit_count(), 1); // seq 3 still pending

    // A slower follower acking an already-committed seq changes nothing.
    assert!(node.record_ack(2, SeqNo(1)).is_empty());
    assert_eq!(node.commit_watermark(), SeqNo(2));

    // Follower 1 catches up to the tip: seq 3 commits.
    let released = node.record_ack(1, SeqNo(3));
    assert_eq!(released, vec![(SeqNo(3), vec![3])]);
    assert_eq!(node.commit_watermark(), SeqNo(3));
    assert_eq!(node.pending_commit_count(), 0);
}

#[test]
fn single_voter_commits_immediately() {
    // The leader is a majority of itself: outputs come straight back.
    let mut node = leader(1);

    let (seq, released) = node.submit(&42).unwrap();
    assert_eq!(seq, SeqNo(1));
    assert_eq!(released, vec![42]);
    assert_eq!(node.commit_watermark(), SeqNo(1));
    assert_eq!(node.pending_commit_count(), 0);
}

#[test]
fn stale_acks_never_regress_the_watermark() {
    let mut node = leader(3);
    for i in 1..=5 {
        node.submit(&i).unwrap();
    }

    // Follower 1 jumps to the tip: watermark = min(leader@5, f1@5) = 5.
    let released = node.record_ack(1, SeqNo(5));
    assert_eq!(released.len(), 5);
    assert_eq!(node.commit_watermark(), SeqNo(5));

    // A delayed, out-of-order ack from the same follower is ignored.
    assert!(node.record_ack(1, SeqNo(2)).is_empty());
    assert_eq!(node.commit_watermark(), SeqNo(5));
}

#[test]
fn a_minority_never_commits() {
    // 5 voters need 3 copies. Leader and one follower are only 2.
    let mut node = leader(5);
    for i in 1..=4 {
        node.submit(&i).unwrap();
    }
    assert!(node.record_ack(1, SeqNo(4)).is_empty());
    assert_eq!(node.commit_watermark(), SeqNo::genesis());
    // A third voter tips it over: {leader, f1, f2} = 3/5.
    let released = node.record_ack(2, SeqNo(4));
    assert_eq!(released.len(), 4);
    assert_eq!(node.commit_watermark(), SeqNo(4));
}

#[test]
fn ticks_advance_the_leader_high_water_so_commit_tracks_the_tip() {
    // A control frame between inputs must not strand later inputs below the
    // watermark.
    let mut node = leader(3);

    node.submit(&1).unwrap(); // seq 1
    node.tick().unwrap(); // seq 2 (no output)
    node.submit(&2).unwrap(); // seq 3

    // Follower acks the tip: both inputs release; the tick adds no output.
    let released = node.record_ack(1, SeqNo(3));
    assert_eq!(released, vec![(SeqNo(1), vec![1]), (SeqNo(3), vec![2])]);
    assert_eq!(node.commit_watermark(), SeqNo(3));
}

fn refused(disk: SimStorage) -> NodeError {
    let opened: Result<Node<Meter, ManualClock, SimStorage>, NodeError> =
        Node::open_with(config(), (), ManualClock(Timestamp(1)), disk);
    match opened {
        Err(e) => e,
        Ok(_) => panic!("the node opened"),
    }
}

#[test]
fn a_journal_without_its_beginning_is_refused() {
    let mut disk = SimStorage::new();
    let mut rec = Journal::open_with(JournalConfig::new(DIR), &mut disk).unwrap();
    rec.journal.reseat_to(&mut disk, SeqNo(5)).unwrap();
    let tick = Frame::new(SeqNo(5), Timestamp(1), 1, FrameKind::Tick, vec![]);
    rec.journal.append(&mut disk, &tick).unwrap();
    assert!(matches!(
        refused(disk),
        NodeError::UncoveredHistory { journal_first: SeqNo(5) }
    ));
}

#[test]
fn an_input_that_does_not_decode_is_refused() {
    let mut disk = SimStorage::new();
    let mut rec = Journal::open_with(JournalConfig::new(DIR), &mut disk).unwrap();
    let tick = Frame::new(SeqNo(1), Timestamp(1), 1, FrameKind::Tick, vec![]);
    let junk = Frame::new(SeqNo(2), Timestamp(1), 1, FrameKind::Input, vec![]);
    rec.journal.append(&mut disk, &tick).unwrap();
    rec.journal.append(&mut disk, &junk).unwrap();
    assert!(matches!(
        refused(disk),
        NodeError::CorruptInput { seq: SeqNo(2), err: CodecError::UnexpectedEof }
    ));
}

#[test]
fn a_fence_takes_a_seq_and_carries_its_epoch() {
    let mut node = open(config(), 100, SimStorage::new());
    node.submit(&Cmd::Bump(1)).unwrap();
    let stream = node.subscribe();
    assert_eq!(node.fence(7).unwrap(), SeqNo(2));
    assert_eq!(node.seq(), SeqNo(2));
    let frames = node.drain(stream);
    assert_eq!(frames.len(), 1);
    let change = EpochChange::from_frame(&frames[0]).unwrap();
    assert_eq!((change.epoch, change.first_seq), (7, SeqNo(2)));
    assert_eq!(node.service().total, 1);
}
