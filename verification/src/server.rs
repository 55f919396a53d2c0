//! A replicated server: one of a deployment's leader and followers.
//!
//! The leader owns a [`Node`]: it sequences, journals and publishes. A
//! follower takes in the stream, journals every frame it applies, and keeps a
//! [`Replica`] of the state, so its own journal is what a promotion recovers
//! from. Every server keeps a durable acceptor for votes.
//!
//! The server decides; whoever drives it moves the bytes. What comes in is
//! handed to it, and what it wants sent it hands back. Times are milliseconds
//! on one monotonic clock.

use vstd::prelude::*;

pub mod admin;
pub mod detector;
pub mod run;

use crate::codec::Encode;
use crate::epoch::EpochChange;
use crate::frame::{Frame, FrameKind, Record};
use crate::journal::{held, records, recover, seq_before, FsyncPolicy, Journal, JournalConfig};
use crate::machine::Machine;
use crate::node::startup::{mended, room, tidy_names, told};
use crate::node::{runs_on, Node, NodeConfig, NodeError, Progress, Rules, TimeSource};
use crate::persist::{PersistError, PersistentAcceptor};
use crate::recovery::{anchor, covered, reached, recovered_machine};
use crate::seq::SeqNo;
use crate::server::detector::FailureDetector;
use crate::service::Service;
use crate::storage::{Disk, DiskModel, Storage};
use crate::transport::publisher::Publisher;
use crate::transport::replica::{followed, Replica};
use crate::transport::retransmit::{GapFill, Receiver};
use crate::transport::store::{ChainStore, JournalRewinder, MemStore};
use crate::transport::TransportError;

verus! {

/// How many recent frames a leader keeps in memory for retransmission.
pub const REPEATER_FRAMES: usize = 65_536;

/// How many frames lie between a leader's snapshots.
pub const LEADER_SNAPSHOT_EVERY: u64 = 500;

#[derive(Debug)]
pub enum ServerError {
    Node(NodeError),
    Persist(PersistError),
    Transport(TransportError),
    /// Promotion lost the election: no majority, a higher epoch, or a journal
    /// that lacks what the majority holds.
    ElectionLost { highest_promised: u64 },
    /// The operation requires the other role.
    WrongRole(&'static str),
}

/// Which role a server plays.
#[derive(Debug, Clone, Copy, PartialEq, Eq, Structural)]
pub enum Role {
    Leader,
    Follower,
}

/// A deployment, as every server knows it.
#[derive(Debug, Clone)]
pub struct ClusterConfig {
    /// How many servers there are. Each knows its own index.
    pub peers: usize,
    /// The session id of the deployment's sequenced stream.
    pub session: u64,
    /// The server that followers fill gaps from.
    pub leader_hint: usize,
    /// How long a leader may be silent, for the server with index 0.
    pub failover_timeout: u64,
    /// How much longer for each index, so the lowest survivor stands first.
    pub failover_stagger: u64,
    /// How often a leader shows that it is alive.
    pub heartbeat_interval: u64,
}

impl ClusterConfig {
    pub fn new(peers: usize, session: u64) -> (r: Self)
        ensures
            r.peers == peers,
            r.session == session,
            r.leader_hint == 0,
            r.failover_timeout == 1000,
            r.failover_stagger == 500,
            r.heartbeat_interval == 100,
    {
        ClusterConfig {
            peers,
            session,
            leader_hint: 0,
            failover_timeout: 1000,
            failover_stagger: 500,
            heartbeat_interval: 100,
        }
    }

    /// How long the server with index `idx` waits for its leader.
    pub open spec fn patience(&self, idx: usize) -> nat {
        let t = self.failover_timeout + self.failover_stagger * idx;
        if t > u64::MAX {
            u64::MAX as nat
        } else {
            t as nat
        }
    }

    fn timeout_of(&self, idx: usize) -> (r: u64)
        ensures
            r == self.patience(idx),
    {
        let step: u64 = self.failover_stagger;
        assert(0 <= step * idx <= 0xFFFF_FFFF_FFFF_FFFF * 0xFFFF_FFFF_FFFF_FFFF) by (nonlinear_arith)
            requires
                step <= 0xFFFF_FFFF_FFFF_FFFF,
                idx <= 0xFFFF_FFFF_FFFF_FFFF,
        ;
        let wide: u128 = (step as u128) * (idx as u128);
        let t: u128 = self.failover_timeout as u128 + wide;
        if t > u64::MAX as u128 {
            u64::MAX
        } else {
            t as u64
        }
    }
}

/// A state and the seq that a replica is at, after frames that it may refuse:
/// one out of order leaves it as it is, one that does not apply only takes up
/// its seq.
pub open spec fn caught_up<S: Service>(
    config: S::Config,
    state: Seq<u8>,
    tip: u64,
    frames: Seq<Record>,
) -> (Seq<u8>, u64)
    decreases frames.len(),
{
    if frames.len() == 0 {
        (state, tip)
    } else {
        let (s, t) = caught_up::<S>(config, state, tip, frames.drop_last());
        let f = frames.last();
        if f.seq != t + 1 {
            (s, t)
        } else {
            match followed::<S>(config, s, f) {
                Ok((next, _)) => (next, f.seq),
                Err(_) => (s, f.seq),
            }
        }
    }
}

/// Hands a frame to a replica, whatever it makes of it.
fn mirror<S: Service>(replica: &mut Replica<S>, frame: &Frame)
    ensures
        final(replica).config() == old(replica).config(),
        (final(replica).state(), final(replica).tip()) == caught_up::<S>(
            old(replica).config(),
            old(replica).state(),
            old(replica).tip(),
            seq![frame@],
        ),
{
    proof {
        let one = seq![frame@];
        assert(one.drop_last() =~= Seq::empty());
        reveal_with_fuel(caught_up, 2);
    }
    if replica.seq().0 < u64::MAX {
        let _ = replica.apply(frame);
    }
}

/// Handing frames over one by one is handing them over at once.
proof fn lemma_caught_up<S: Service>(
    config: S::Config,
    state: Seq<u8>,
    tip: u64,
    frames: Seq<Record>,
    f: Record,
)
    ensures
        ({
            let (s, t) = caught_up::<S>(config, state, tip, frames);
            caught_up::<S>(config, state, tip, frames.push(f)) == caught_up::<S>(
                config,
                s,
                t,
                seq![f],
            )
        }),
{
    assert(frames.push(f).drop_last() =~= frames);
    assert(seq![f].drop_last() =~= Seq::empty());
    reveal_with_fuel(caught_up, 2);
}

/// The file that a server's votes are recorded in.
pub open spec fn ballot_path(dir: Seq<u8>) -> Seq<u8> {
    dir + ballot_name()
}

/// `/acceptor.state`.
pub open spec fn ballot_name() -> Seq<u8> {
    seq![
        0x2Fu8,
        0x61u8,
        0x63u8,
        0x63u8,
        0x65u8,
        0x70u8,
        0x74u8,
        0x6Fu8,
        0x72u8,
        0x2Eu8,
        0x73u8,
        0x74u8,
        0x61u8,
        0x74u8,
        0x65u8,
    ]
}

fn ballot_file(dir: &[u8]) -> (r: Vec<u8>)
    ensures
        r@ == ballot_path(dir@),
{
    let mut path = crate::paths::copy_bytes(dir);
    let mut name: Vec<u8> = vec![
        0x2Fu8, 0x61, 0x63, 0x63, 0x65, 0x70, 0x74, 0x6F, 0x72, 0x2E, 0x73, 0x74, 0x61, 0x74, 0x65,
    ];
    assert(name@ =~= ballot_name());
    path.append(&mut name);
    assert(path@ =~= ballot_path(dir@));
    path
}

/// What a leader works with.
struct LeaderMode<S: Service, T: TimeSource, St: Storage> {
    node: Node<S, T, St>,
    publisher: Publisher,
    store: ChainStore<MemStore, JournalRewinder<St>>,
    stream: usize,
}

/// What a follower works with.
struct FollowerMode<S: Service, St: Storage> {
    receiver: Receiver,
    storage: St,
    journal: Journal<St>,
    replica: Replica<S>,
    applied: SeqNo,
    detector: FailureDetector,
}

enum Mode<S: Service, T: TimeSource, St: Storage> {
    Leader(LeaderMode<S, T, St>),
    Follower(FollowerMode<S, St>),
    /// A promotion did not come to its end.
    Transitioning,
}

/// One server of a deployment.
pub struct Server<S: Service, T: TimeSource, St: Storage> {
    idx: usize,
    config: ClusterConfig,
    service_config: S::Config,
    dir: Vec<u8>,
    acceptor: PersistentAcceptor,
    ballots: St,
    epoch: u64,
    mode: Mode<S, T, St>,
}

/// What one step of following came to.
pub enum Pumped {
    /// A frame was delivered; whether it was journaled and applied.
    Delivered(bool),
    /// This gap is to be filled from the current leader.
    Fill(GapFill),
    /// Nothing to do until packets come in.
    Idle,
}

/// A frame sequence number, the outputs free to leave, and the packets to send
/// to every other server.
pub struct Submitted<O> {
    pub seq: SeqNo,
    pub outputs: Vec<O>,
    pub packets: Vec<Vec<u8>>,
}

/// Cloning a configuration gives an equal one.
pub open spec fn clones_equal<C: Clone>() -> bool {
    forall|a: C, b: C| #[trigger] cloned(a, b) ==> a == b
}

impl<S: Service, St: Storage> FollowerMode<S, St> {
    /// The journal on the disk is what the follower takes it for.
    spec fn intact(&self) -> bool {
        &&& self.journal.wf(self.storage.view())
        &&& self.journal.roomy(self.storage.view())
        &&& self.journal.segment_bytes() == 1_073_741_824
        &&& self.journal.tip() == self.applied.0
    }

    /// Recovers the follower's journal and replica.
    fn build(
        dir: &[u8],
        service_config: &S::Config,
        mut storage: St,
        timeout: u64,
        now: u64,
    ) -> (r: Result<Self, ServerError>)
        ensures
            match r {
                Ok(f) => {
                    let disk = storage.view();
                    let found = recover(disk, dir@)->Ok_0;
                    &&& recover(disk, dir@) is Ok
                    &&& f.applied.0 == seq_before(found.next)
                    &&& f.journal.tip() == f.applied.0
                    &&& f.journal.dir() == dir@
                    &&& f.journal.fsync() == FsyncPolicy::EveryFrame
                    &&& f.storage.view() == crate::journal::after_recovery(disk, dir@, found)
                    &&& f.storage.reliable() == storage.reliable()
                    &&& f.replica.config() == *service_config
                    &&& (f.replica.state(), f.replica.tip()) == caught_up::<S>(
                        *service_config,
                        S::genesis_state(*service_config),
                        0,
                        found.frames,
                    )
                    &&& f.receiver.model().next == f.applied.0 + 1
                    &&& f.receiver.model().announced == f.applied.0 + 1
                    &&& f.receiver.model().pending.len() == 0
                    &&& f.receiver.model().packets == 0
                    &&& f.receiver.model().session is None
                    &&& f.detector.since() == now
                    &&& f.detector.seen() == 0
                    &&& f.detector.patience() == timeout
                    &&& crate::journal::names_right(disk, dir@) && found.frames.len() < found.next
                        ==> f.intact()
                },
                Err(e) => e is Node,
            },
            storage.reliable() ==> (r is Ok <==> recover(storage.view(), dir@) is Ok && (recover(
                storage.view(),
                dir@,
            )->Ok_0).next < u64::MAX),
    {
        let mut config = JournalConfig::new(dir);
        config.fsync = FsyncPolicy::EveryFrame;
        let recovered = match Journal::open_with(config, &mut storage) {
            Ok(rec) => rec,
            Err(e) => {
                return Err(ServerError::Node(NodeError::Journal(e)));
            },
        };
        let applied: SeqNo = recovered.journal.last_seq();
        if applied.0 >= u64::MAX - 1 {
            return Err(ServerError::Node(NodeError::Journal(crate::journal::JournalError::SeqExhausted)));
        }
        let mut replica: Replica<S> = Replica::new(service_config);
        let frames = recovered.frames;
        let ghost all = records(frames@);
        let mut i: usize = 0;
        while i < frames.len()
            invariant
                i <= frames@.len(),
                all == records(frames@),
                replica.config() == *service_config,
                (replica.state(), replica.tip()) == caught_up::<S>(
                    *service_config,
                    S::genesis_state(*service_config),
                    0,
                    all.take(i as int),
                ),
            decreases frames@.len() - i,
        {
            mirror(&mut replica, &frames[i]);
            proof {
                lemma_caught_up::<S>(
                    *service_config,
                    S::genesis_state(*service_config),
                    0,
                    all.take(i as int),
                    frames@[i as int]@,
                );
                assert(all.take(i + 1) =~= all.take(i as int).push(frames@[i as int]@));
            }
            i = i + 1;
        }
        assert(all.take(frames@.len() as int) =~= all);
        let receiver = Receiver::new(SeqNo(applied.0 + 1));
        let detector = FailureDetector::new(timeout, receiver.packets_seen(), now);
        Ok(FollowerMode {
            receiver,
            storage,
            journal: recovered.journal,
            replica,
            applied,
            detector,
        })
    }
}

/// The packet of each frame.
pub open spec fn packets_of(session: u64, frames: Seq<Record>) -> Seq<Seq<u8>> {
    frames.map_values(
        |f: Record|
            (crate::transport::packet::PacketModel::Data { session, frames: seq![f] }).wire(),
    )
}

/// The bytes of each packet.
pub open spec fn wires(packets: Seq<Vec<u8>>) -> Seq<Seq<u8>> {
    packets.map_values(|p: Vec<u8>| p@)
}

/// Firing timers only adds frames.
proof fn lemma_fired_grows<S: Service>(
    rules: crate::node::Rules<S::Config>,
    p: crate::node::Progress,
    time: u64,
)
    ensures
        crate::node::fired::<S>(rules, p, time).frames.len() >= p.frames.len(),
    decreases u64::MAX - p.seq,
{
    if let Some(id) = crate::timer::next_due(p.machine.wheel, time) {
        if p.seq < u64::MAX - 2 {
            lemma_fired_grows::<S>(
                rules,
                crate::node::sequenced::<S>(rules, p, FrameKind::TimerFired, id.bytes(), time),
                time,
            );
        }
    }
}

/// The journal in `dir` can be gone on with: its segments are named as they
/// should be, and its frames are numbered from 1 on or later.
pub open spec fn sound_journal(disk: DiskModel, dir: Seq<u8>) -> bool {
    &&& crate::journal::names_right(disk, dir)
    &&& recover(disk, dir) matches Ok(found) ==> found.frames.len() < found.next
}

/// How a leader's node is set up.
pub open spec fn leader_setup(config: NodeConfig, dir: Seq<u8>) -> bool {
    &&& config.journal.dir@ == dir
    &&& config.journal.fsync == FsyncPolicy::EveryFrame
    &&& config.snapshot_every == Some(LEADER_SNAPSHOT_EVERY)
    &&& config.quorum is None
}

/// The most recent of some frames, as many as a leader keeps in memory.
pub open spec fn latest(frames: Seq<Record>) -> Seq<Record> {
    if frames.len() > REPEATER_FRAMES {
        frames.skip(frames.len() - REPEATER_FRAMES)
    } else {
        frames
    }
}

/// What a leader makes of the frames that its node sequences: the packets that
/// carry them, and the recent frames that it keeps, before and after.
pub struct Relayed {
    pub session: u64,
    pub packets: Seq<Seq<u8>>,
    pub before: Seq<Record>,
    pub recent: Seq<Record>,
}

/// The node has sequenced a frame since `before`, and what it sequenced was
/// relayed.
pub open spec fn went_on<S: Service, T: TimeSource, St: Storage>(
    before: Node<S, T, St>,
    after: Node<S, T, St>,
    kind: FrameKind,
    payload: Seq<u8>,
    relayed: Relayed,
    outputs: Seq<Seq<u8>>,
) -> bool {
    exists|now: u64|
        {
            let time = before.stamp(now);
            let p = crate::node::advanced::<S>(
                before.rules(),
                before.progress(),
                kind,
                payload,
                time,
            );
            &&& #[trigger] before.clock().reads(after.clock(), now)
            &&& after.tip() == p.seq
            &&& after.machine() == p.machine
            &&& after.last_time() == time
            &&& after.same_setup(&before)
            &&& crate::node::kept_end(after.frames(), before.frames() + p.frames)
            &&& relayed.packets == packets_of(relayed.session, p.frames)
            &&& relayed.recent == latest(relayed.before + p.frames)
            &&& outputs == if kind == FrameKind::Input {
                crate::quorum::flattened(p.outputs)
            } else {
                Seq::empty()
            }
        }
}

/// The fence that opens an epoch behind `tip`.
pub open spec fn opening_fence<S: Service>(epoch: u64, tip: u64) -> Seq<u8> {
    crate::epoch::fence_payload(
        EpochChange {
            epoch,
            first_seq: SeqNo((tip + 1) as u64),
            schema_version: S::SCHEMA_VERSION,
        },
    )
}

/// A node can be opened on the disk and fence `epoch`, whatever the time.
pub open spec fn can_lead<S: Service>(
    service_config: S::Config,
    disk: DiskModel,
    dir: Seq<u8>,
    epoch: u64,
) -> bool {
    let from = anchor::<S>(service_config, mended(disk, dir), dir);
    let tip = reached(disk, dir, from);
    let rules = Rules {
        config: service_config,
        stream_id: 1,
        every: Some(LEADER_SNAPSHOT_EVERY),
    };
    let p = Progress {
        machine: recovered_machine::<S>(service_config, disk, dir, from)->Ok_0,
        seq: tip,
        frames: Seq::empty(),
        outputs: Seq::empty(),
    };
    &&& told::<S>(service_config, disk, dir)
    &&& covered(disk, dir)
    &&& tidy_names(disk, dir)
    &&& room(disk, dir, from)
    &&& forall|time: u64| #[trigger]
        runs_on::<S>(
            rules,
            p,
            FrameKind::EpochChange,
            opening_fence::<S>(epoch, tip),
            time,
        )
}

/// The node was opened on the disk and has fenced the epoch, and what it
/// sequenced was relayed.
pub open spec fn started<S: Service, T: TimeSource, St: Storage>(
    node: Node<S, T, St>,
    epoch: u64,
    dir: Seq<u8>,
    service_config: S::Config,
    disk: DiskModel,
    relayed: Relayed,
) -> bool {
    exists|config: NodeConfig, opened: Node<S, T, St>, from: Option<(u64, Machine)>|
        {
            &&& #[trigger] opened.opened(config, service_config, disk, from)
            &&& leader_setup(config, dir)
            &&& went_on(
                opened,
                node,
                FrameKind::EpochChange,
                opening_fence::<S>(epoch, opened.tip()),
                relayed,
                Seq::empty(),
            )
        }
}

/// Of the most recent frames and one more, the most recent.
proof fn lemma_latest(frames: Seq<Record>, f: Record)
    ensures
        ({
            let all = latest(frames).push(f);
            latest(frames.push(f)) == if all.len() > REPEATER_FRAMES {
                all.skip(1)
            } else {
                all
            }
        }),
{
    let all = latest(frames).push(f);
    if all.len() > REPEATER_FRAMES {
        assert(latest(frames.push(f)) =~= all.skip(1));
    } else {
        assert(latest(frames.push(f)) =~= all);
    }
}

/// What was streamed since a subscriber came waits for it.
proof fn lemma_fresh_stream(
    before: Seq<Seq<Record>>,
    from: u64,
    after: Seq<Seq<Record>>,
    to: u64,
)
    requires
        crate::node::streamed(before, from, after, to),
        before.len() == 1,
    ensures
        after.len() == 1,
        exists|frames: Seq<Record>| #[trigger]
            crate::node::run_of(frames, from, to) && after[0] == before[0] + frames,
{
    reveal(crate::node::streamed);
    let frames = choose|frames: Seq<Record>| #[trigger]
        crate::node::run_of(frames, from, to) && after == crate::bus::published_all(before, frames);
    assert(after[0] == before[0] + frames);
}

/// What waited and what was streamed since waits without a gap.
proof fn lemma_more_waits(
    before: Seq<Seq<Record>>,
    relayed: u64,
    from: u64,
    after: Seq<Seq<Record>>,
    to: u64,
)
    requires
        crate::node::streamed(before, from, after, to),
        before.len() == 1,
        crate::node::run_of(before[0], relayed, from),
    ensures
        after.len() == 1,
        crate::node::run_of(after[0], relayed, to),
{
    lemma_fresh_stream(before, from, after, to);
    let frames = choose|frames: Seq<Record>| #[trigger]
        crate::node::run_of(frames, from, to) && after[0] == before[0] + frames;
    crate::node::lemma_runs_join(before[0], frames, relayed, from, to);
}

/// Nothing is a run to where it starts.
proof fn lemma_nothing_waits(at: u64)
    ensures
        crate::node::run_of(Seq::<Record>::empty(), at, at),
{
    reveal(crate::node::run_of);
}

impl<S: Service, T: TimeSource, St: Storage> LeaderMode<S, T, St> {
    /// What was sequenced and not yet relayed waits for it.
    spec fn wf(&self) -> bool {
        &&& self.node.quorum() is None
        &&& self.node.tip() < u64::MAX
        &&& self.stream == 0
        &&& self.node.waiting().len() == 1
        &&& self.publisher.next() >= 1
        &&& crate::node::run_of(self.node.waiting()[0], self.relayed(), self.node.tip())
        &&& self.keeps(self.relayed())
    }

    /// Everything up to here was relayed.
    spec fn relayed(&self) -> u64 {
        (self.publisher.next() - 1) as u64
    }

    /// The node stands at the end of its journal, and everything was relayed.
    spec fn intact(&self) -> bool {
        &&& self.node.wf()
        &&& self.publisher.next() == self.node.tip() + 1
        &&& self.node.waiting() == seq![Seq::<Record>::empty()]
    }

    /// The recent frames are numbered without a gap up to `tip`.
    spec fn keeps(&self, tip: u64) -> bool {
        let held = self.store.primary.held();
        &&& self.store.primary.limit() == REPEATER_FRAMES
        &&& held.len() <= REPEATER_FRAMES
        &&& forall|i: int|
            0 <= i < held.len() ==> (#[trigger] held[i]).seq == tip + 1 + i - held.len()
    }

    /// Takes what the node has sequenced since: keeps it for retransmission,
    /// and makes a packet of every frame.
    fn relay(&mut self, Ghost(from): Ghost<u64>) -> (r: Vec<Vec<u8>>)
        requires
            old(self).node.quorum() is None,
            old(self).stream == 0,
            old(self).node.waiting().len() == 1,
            crate::node::run_of(old(self).node.waiting()[0], from, old(self).node.tip()),
            old(self).node.tip() < u64::MAX,
            from < old(self).node.tip() || old(self).publisher.next() == from + 1,
            old(self).keeps(from),
        ensures
            final(self).wf(),
            old(self).node.wf() ==> final(self).intact(),
            final(self).node.unmoved(&old(self).node),
            final(self).node.clock() == old(self).node.clock(),
            final(self).publisher.id() == old(self).publisher.id(),
            final(self).store.secondary == old(self).store.secondary,
            final(self).store.primary.held() == latest(
                old(self).store.primary.held() + old(self).node.waiting()[0],
            ),
            wires(r@) == packets_of(old(self).publisher.id(), old(self).node.waiting()[0]),
    {
        let ghost before = *self;
        let ghost all = self.node.waiting()[0];
        let ghost tip = self.node.tip();
        let ghost session = self.publisher.id();
        let ghost had = self.store.primary.held();
        let mut frames = self.node.drain(self.stream);
        let ghost fresh = self.node;
        proof {
            assert(fresh.waiting() =~= seq![Seq::<Record>::empty()]);
            reveal(crate::node::run_of);
        }
        let mut packets: Vec<Vec<u8>> = Vec::new();
        let n: usize = frames.len();
        let mut i: usize = 0;
        assert(wires(packets@) =~= packets_of(session, all.take(0)));
        assert(had + all.take(0) =~= had);
        while i < n
            invariant
                i <= n == frames@.len() == all.len(),
                forall|k: int| 0 <= k < n ==> #[trigger] frames@[k]@ == all[k],
                tip == from + n,
                tip < u64::MAX,
                forall|k: int|
                    0 <= k < n ==> (#[trigger] all[k]).seq == from + 1 + k && all[k].valid(),
                wires(packets@) == packets_of(session, all.take(i as int)),
                self.node == fresh,
                self.stream == 0,
                self.publisher.id() == session,
                i > 0 || from == tip ==> self.publisher.next() == from + i + 1,
                self.store.secondary == before.store.secondary,
                self.keeps((from + i) as u64),
                self.store.primary.held() == latest(had + all.take(i as int)),
            decreases n - i,
        {
            let frame = frames[i].clone();
            let packet = self.publisher.publish(&frame);
            let ghost f = frame@;
            assert(f == all[i as int]);
            let ghost kept = self.store.primary.held();
            proof {
                if kept.len() > 0 {
                    assert(kept.last().seq == from + i);
                }
            }
            self.store.primary.record(frame);
            proof {
                lemma_latest(had + all.take(i as int), f);
                assert(had + all.take(i + 1) =~= (had + all.take(i as int)).push(f));
                let w = (crate::transport::packet::PacketModel::Data {
                    session,
                    frames: seq![f],
                }).wire();
                assert(all.take(i + 1) =~= all.take(i as int).push(f));
                assert(packets_of(session, all.take(i + 1)) =~= packets_of(
                    session,
                    all.take(i as int),
                ).push(w));
                assert(wires(packets@.push(packet)) =~= wires(packets@).push(w));
            }
            packets.push(packet);
            i = i + 1;
        }
        proof {
            assert(all.take(n as int) =~= all);
            lemma_nothing_waits(tip);
        }
        packets
    }

    /// Opens a node on the journal in `dir`, fences the epoch as the first
    /// sequenced act, and makes packets of what was sequenced.
    fn start(
        epoch: u64,
        session: u64,
        dir: &[u8],
        service_config: S::Config,
        clock: T,
        storage: St,
        rewind: St,
    ) -> (r: Result<(Self, Vec<Vec<u8>>), ServerError>)
        ensures
            r matches Err(e) ==> e is Node,
            r matches Ok((l, packets)) ==> {
                &&& l.wf()
                &&& l.publisher.id() == session
                &&& l.store.secondary.disk() == rewind.view()
                &&& l.store.secondary.dir() == dir@
                &&& l.store.secondary.reliable() == rewind.reliable()
                &&& sound_journal(storage.view(), dir@) ==> l.intact() && started::<S, T, St>(
                    l.node,
                    epoch,
                    dir@,
                    service_config,
                    storage.view(),
                    Relayed {
                        session,
                        packets: wires(packets@),
                        before: Seq::empty(),
                        recent: l.store.primary.held(),
                    },
                )
            },
            storage.reliable() && can_lead::<S>(service_config, storage.view(), dir@, epoch)
                ==> r is Ok,
    {
        let mut config = NodeConfig::new(dir);
        config.journal.fsync = FsyncPolicy::EveryFrame;
        config.snapshot_every = Some(LEADER_SNAPSHOT_EVERY);
        let ghost setup = config;
        let ghost disk = storage.view();
        let mut node: Node<S, T, St> = match Node::open_with(
            config,
            service_config,
            clock,
            storage,
        ) {
            Ok(n) => n,
            Err(e) => {
                return Err(ServerError::Node(e));
            },
        };
        let ghost opened = node;
        let ghost sound = sound_journal(disk, dir@);
        let stream: usize = node.subscribe();
        let ghost ready = node;
        proof {
            if node.reliable() && can_lead::<S>(service_config, disk, dir@, epoch) {
                let from = choose|from: Option<(u64, Machine)>| #[trigger]
                    opened.opened(setup, service_config, disk, from) && from == anchor::<S>(
                        service_config,
                        mended(disk, dir@),
                        dir@,
                    );
                let payload = opening_fence::<S>(epoch, ready.tip());
                crate::epoch::law_fence_roundtrip(
                    EpochChange {
                        epoch,
                        first_seq: SeqNo((ready.tip() + 1) as u64),
                        schema_version: S::SCHEMA_VERSION,
                    },
                );
                assert forall|now: u64|
                    ready.smooth(
                        FrameKind::EpochChange,
                        payload,
                        #[trigger] ready.stamp(now),
                    ) by {
                    assert(opened.takes(payload.len()));
                    assert(runs_on::<S>(
                        ready.rules(),
                        ready.progress(),
                        FrameKind::EpochChange,
                        payload,
                        ready.stamp(now),
                    ));
                }
            }
        }
        if let Err(e) = node.fence(epoch) {
            return Err(ServerError::Node(e));
        }
        let publisher = Publisher::new(session);
        let store = ChainStore {
            primary: MemStore::with_capacity(REPEATER_FRAMES),
            secondary: JournalRewinder::new(JournalConfig::new(dir), rewind),
        };
        let ghost tip = ready.tip();
        let mut leader = LeaderMode { node, publisher, store, stream };
        let ghost fenced = leader.node;
        let ghost payload = opening_fence::<S>(epoch, tip);
        let ghost now: u64 = if sound {
            choose|now: u64| #[trigger]
                fenced.controlled(&ready, FrameKind::EpochChange, payload, true, now)
        } else {
            0
        };
        let ghost p = crate::node::advanced::<S>(
            ready.rules(),
            ready.progress(),
            FrameKind::EpochChange,
            payload,
            ready.stamp(now),
        );
        proof {
            assert(opened.waiting() =~= Seq::empty());
            assert(ready.waiting() =~= seq![Seq::<Record>::empty()]);
            lemma_nothing_waits(tip);
            lemma_more_waits(ready.waiting(), tip, tip, fenced.waiting(), fenced.tip());
            if sound {
                assert(fenced.noted(&ready, FrameKind::EpochChange, payload, now));
                assert(fenced.waiting()[0] =~= p.frames);
            }
        }
        let packets = leader.relay(Ghost(tip));
        proof {
            if sound {
                assert(opened.progress() == ready.progress());
                assert(opened.stamp(now) == ready.stamp(now));
                assert(opened.clock().reads(leader.node.clock(), now));
                assert(Seq::<Record>::empty() + p.frames =~= p.frames);
                assert(went_on(
                    opened,
                    leader.node,
                    FrameKind::EpochChange,
                    payload,
                    Relayed {
                        session,
                        packets: wires(packets@),
                        before: Seq::empty(),
                        recent: leader.store.primary.held(),
                    },
                    Seq::empty(),
                ));
                let from = choose|from: Option<(u64, Machine)>| #[trigger]
                    opened.opened(setup, service_config, disk, from);
                assert(opened.opened(setup, service_config, disk, from));
            }
        }
        Ok((leader, packets))
    }
}

/// What a leader hands to its node: an input that decodes, a tick, or the fence
/// of an epoch.
pub open spec fn is_led<S: Service>(kind: FrameKind, payload: Seq<u8>, tip: u64) -> bool {
    ||| kind == FrameKind::Input && crate::codec::parse_all::<S::Input>(payload) is Ok
    ||| kind == FrameKind::Tick
    ||| kind == FrameKind::EpochChange && exists|epoch: u64|
        payload == #[trigger] opening_fence::<S>(epoch, tip)
}

/// A replica that followed the leader up to `p` follows one more frame.
proof fn lemma_one_more<S: Service>(
    rules: Rules<S::Config>,
    state: Seq<u8>,
    tip: u64,
    p: Progress,
    kind: FrameKind,
    payload: Seq<u8>,
    time: u64,
)
    requires
        p.seq < u64::MAX,
        caught_up::<S>(rules.config, state, tip, p.frames) == (p.machine.state, p.seq),
        kind == FrameKind::TimerFired ==> crate::machine::fired_id(payload) is Ok,
        kind == FrameKind::TimerFired || kind == FrameKind::SnapshotMark || is_led::<S>(
            kind,
            payload,
            p.seq,
        ),
    ensures
        ({
            let q = crate::node::executed::<S>(rules, p, kind, payload, time);
            caught_up::<S>(rules.config, state, tip, q.frames) == (q.machine.state, q.seq)
        }),
{
    let f = crate::node::next_frame(rules, p, kind, payload, time);
    lemma_caught_up::<S>(rules.config, state, tip, p.frames, f);
    reveal_with_fuel(caught_up, 2);
    assert(seq![f].drop_last() =~= Seq::empty());
    if kind == FrameKind::EpochChange {
        let epoch = choose|epoch: u64| payload == #[trigger] opening_fence::<S>(epoch, p.seq);
        crate::transport::replica::law_fence_guards_the_schema::<S>(
            rules.config,
            p.machine.state,
            f,
            EpochChange {
                epoch,
                first_seq: SeqNo((p.seq + 1) as u64),
                schema_version: S::SCHEMA_VERSION,
            },
        );
    } else {
        crate::transport::replica::law_replica_mirrors_the_leader::<S>(
            rules.config,
            p.machine,
            f,
        );
    }
}

/// The same, with the snapshot mark that may stand behind the frame.
proof fn lemma_one_more_and_its_mark<S: Service>(
    rules: Rules<S::Config>,
    state: Seq<u8>,
    tip: u64,
    p: Progress,
    kind: FrameKind,
    payload: Seq<u8>,
    time: u64,
)
    requires
        p.seq + 2 <= u64::MAX,
        caught_up::<S>(rules.config, state, tip, p.frames) == (p.machine.state, p.seq),
        kind == FrameKind::TimerFired ==> crate::machine::fired_id(payload) is Ok,
        kind == FrameKind::TimerFired || is_led::<S>(kind, payload, p.seq),
    ensures
        ({
            let q = crate::node::sequenced::<S>(rules, p, kind, payload, time);
            caught_up::<S>(rules.config, state, tip, q.frames) == (q.machine.state, q.seq)
        }),
{
    lemma_one_more::<S>(rules, state, tip, p, kind, payload, time);
    let q = crate::node::executed::<S>(rules, p, kind, payload, time);
    lemma_one_more::<S>(
        rules,
        state,
        tip,
        q,
        FrameKind::SnapshotMark,
        SeqNo(q.seq).bytes(),
        time,
    );
}

/// The same, with the timers that fire.
proof fn lemma_timers_are_followed<S: Service>(
    rules: Rules<S::Config>,
    state: Seq<u8>,
    tip: u64,
    p: Progress,
    time: u64,
)
    requires
        caught_up::<S>(rules.config, state, tip, p.frames) == (p.machine.state, p.seq),
    ensures
        ({
            let q = crate::node::fired::<S>(rules, p, time);
            caught_up::<S>(rules.config, state, tip, q.frames) == (q.machine.state, q.seq)
        }),
    decreases u64::MAX - p.seq,
{
    if let Some(id) = crate::timer::next_due(p.machine.wheel, time) {
        if p.seq < u64::MAX - 2 {
            crate::codec::law_encoding_is_accepted(id);
            lemma_one_more_and_its_mark::<S>(
                rules,
                state,
                tip,
                p,
                FrameKind::TimerFired,
                id.bytes(),
                time,
            );
            lemma_timers_are_followed::<S>(
                rules,
                state,
                tip,
                crate::node::sequenced::<S>(rules, p, FrameKind::TimerFired, id.bytes(), time),
                time,
            );
        }
    }
}

/// A follower whose replica is where the leader was, and that takes in the
/// frames that the leader sequenced since, is where the leader is: snapshot
/// marks, fired timers and fences included.
pub proof fn law_follower_mirrors_the_leader<S: Service>(
    rules: Rules<S::Config>,
    machine: Machine,
    tip: u64,
    kind: FrameKind,
    payload: Seq<u8>,
    time: u64,
)
    requires
        tip + 2 <= u64::MAX,
        is_led::<S>(kind, payload, tip),
    ensures
        ({
            let start = Progress {
                machine,
                seq: tip,
                frames: Seq::empty(),
                outputs: Seq::empty(),
            };
            let end = crate::node::advanced::<S>(rules, start, kind, payload, time);
            caught_up::<S>(rules.config, machine.state, tip, end.frames) == (
                end.machine.state,
                end.seq,
            )
        }),
{
    let start = Progress { machine, seq: tip, frames: Seq::empty(), outputs: Seq::empty() };
    lemma_one_more_and_its_mark::<S>(rules, machine.state, tip, start, kind, payload, time);
    lemma_timers_are_followed::<S>(
        rules,
        machine.state,
        tip,
        crate::node::sequenced::<S>(rules, start, kind, payload, time),
        time,
    );
}

/// Servers wait for their leader one behind the other: each waits as long as the
/// one before it and the stagger on top, as far as there is time.
pub proof fn law_patience_is_staggered(config: ClusterConfig, idx: usize)
    requires
        idx < usize::MAX,
    ensures
        config.failover_timeout + config.failover_stagger * idx <= u64::MAX ==> config.patience(idx)
            == config.failover_timeout + config.failover_stagger * idx,
        config.patience(0) == config.failover_timeout,
        config.patience(idx) <= config.patience((idx + 1) as usize),
        config.patience((idx + 1) as usize) < u64::MAX ==> config.patience((idx + 1) as usize)
            == config.patience(idx) + config.failover_stagger,
        config.patience(idx) <= u64::MAX,
{
    let s = config.failover_stagger as int;
    let i = idx as int;
    assert(s * (i + 1) == s * i + s) by (nonlinear_arith);
    assert(s * 0 == 0) by (nonlinear_arith);
    assert(s * i >= 0) by (nonlinear_arith)
        requires
            s >= 0,
            i >= 0,
    ;
}

/// A leader keeps the newest frames, up to its limit, in order; each frame that it
/// relays is a packet of its own, in order.
pub proof fn law_newest_frames_are_kept(session: u64, frames: Seq<Record>, i: int)
    ensures
        latest(frames).len() == if frames.len() < 65_536 {
            frames.len() as int
        } else {
            65_536
        },
        0 <= i < latest(frames).len() ==> latest(frames)[latest(frames).len() - 1 - i]
            == frames[frames.len() - 1 - i],
        packets_of(session, frames).len() == frames.len(),
        0 <= i < frames.len() && frames[i].valid()
            ==> crate::transport::packet::read_packet(packets_of(session, frames)[i]) == Ok::<
            crate::transport::packet::PacketModel,
            TransportError,
        >(crate::transport::packet::PacketModel::Data { session, frames: seq![frames[i]] }),
{
    if 0 <= i < frames.len() && frames[i].valid() {
        crate::transport::packet::law_packet_roundtrip(
            crate::transport::packet::PacketModel::Data { session, frames: seq![frames[i]] },
        );
    }
}

/// The fence that opens an epoch names the epoch, the seq that it is sequenced at
/// and the service's own schema version.
pub proof fn law_opening_fence_names_its_epoch<S: Service>(epoch: u64, tip: u64)
    requires
        tip < u64::MAX,
    ensures
        crate::epoch::read_fence(opening_fence::<S>(epoch, tip)) == Ok::<
            EpochChange,
            crate::codec::CodecError,
        >(
            EpochChange {
                epoch,
                first_seq: SeqNo((tip + 1) as u64),
                schema_version: S::SCHEMA_VERSION,
            },
        ),
        opening_fence::<S>(epoch, tip).len() == 20,
{
    crate::epoch::law_fence_roundtrip(
        EpochChange {
            epoch,
            first_seq: SeqNo((tip + 1) as u64),
            schema_version: S::SCHEMA_VERSION,
        },
    );
}

/// A replica takes a frame in only where it comes next. One that comes next takes
/// up its seq and, where it carries an input, steps the service at the frame's
/// seq and time; where the input does not decode, the state stays.
pub proof fn law_replica_takes_the_next_frame<S: Service>(
    config: S::Config,
    state: Seq<u8>,
    tip: u64,
    f: Record,
    input: S::Input,
)
    ensures
        ({
            let (after, at) = caught_up::<S>(config, state, tip, seq![f]);
            &&& f.seq != tip + 1 ==> after == state && at == tip
            &&& f.seq == tip + 1 ==> at == f.seq
            &&& f.seq == tip + 1 && f.kind == FrameKind::Input && input.encodable() && f.payload
                == input.bytes() ==> after == S::step(config, state, f.seq, f.time, f.payload).state
            &&& f.kind == FrameKind::Input && crate::codec::parse_all::<S::Input>(f.payload) is Err
                ==> after == state
            &&& f.kind != FrameKind::Input && f.kind != FrameKind::TimerFired ==> after == state
        }),
{
    assert(seq![f].drop_last() =~= Seq::empty());
    assert(caught_up::<S>(config, state, tip, seq![f].drop_last()) == (state, tip));
    if input.encodable() {
        crate::codec::law_encoding_is_accepted(input);
    }
}

/// Frames that a replica takes in in two parts take it as far as all at once.
pub proof fn law_catching_up_in_parts<S: Service>(
    config: S::Config,
    state: Seq<u8>,
    tip: u64,
    a: Seq<Record>,
    b: Seq<Record>,
)
    ensures
        ({
            let (mid, at) = caught_up::<S>(config, state, tip, a);
            caught_up::<S>(config, state, tip, a + b) == caught_up::<S>(config, mid, at, b)
        }),
        caught_up::<S>(config, state, tip, Seq::empty()) == (state, tip),
    decreases b.len(),
{
    if b.len() == 0 {
        assert(a + b =~= a);
    } else {
        assert((a + b).drop_last() =~= a + b.drop_last());
        law_catching_up_in_parts::<S>(config, state, tip, a, b.drop_last());
    }
}

/// A leader relays every frame that it sequences, each in a packet of its own and
/// in order, the one that was asked for first; it keeps the newest of them, and
/// hands out outputs for inputs only.
pub proof fn law_every_sequenced_frame_is_relayed<S: Service, T: TimeSource, St: Storage>(
    before: Node<S, T, St>,
    after: Node<S, T, St>,
    kind: FrameKind,
    payload: Seq<u8>,
    relayed: Relayed,
    outputs: Seq<Seq<u8>>,
)
    requires
        before.tip() + 2 <= u64::MAX,
        payload.len() <= crate::frame::MAX_PAYLOAD_LEN,
        went_on(before, after, kind, payload, relayed, outputs),
    ensures
        relayed.packets.len() == after.tip() - before.tip(),
        relayed.packets.len() > 0,
        crate::transport::packet::read_packet(relayed.packets[0]) matches Ok(p) && (p matches crate::transport::packet::PacketModel::Data {
            session,
            frames,
        } && session == relayed.session && frames.len() == 1 && frames[0].seq == before.tip() + 1
            && frames[0].kind == kind && frames[0].payload == payload && frames[0].time
            == after.last_time()),
        after.last_time() >= before.last_time(),
        relayed.recent.len() <= REPEATER_FRAMES,
        kind != FrameKind::Input ==> outputs.len() == 0,
{
    let now = choose|now: u64|
        {
            let time = before.stamp(now);
            let p = crate::node::advanced::<S>(
                before.rules(),
                before.progress(),
                kind,
                payload,
                time,
            );
            &&& #[trigger] before.clock().reads(after.clock(), now)
            &&& after.tip() == p.seq
            &&& after.machine() == p.machine
            &&& after.last_time() == time
            &&& after.same_setup(&before)
            &&& crate::node::kept_end(after.frames(), before.frames() + p.frames)
            &&& relayed.packets == packets_of(relayed.session, p.frames)
            &&& relayed.recent == latest(relayed.before + p.frames)
            &&& outputs == if kind == FrameKind::Input {
                crate::quorum::flattened(p.outputs)
            } else {
                Seq::empty()
            }
        };
    let time = before.stamp(now);
    let start = before.progress();
    let p = crate::node::advanced::<S>(before.rules(), start, kind, payload, time);
    let q = crate::node::sequenced::<S>(before.rules(), start, kind, payload, time);
    crate::node::order::law_frame_is_sequenced_next::<S>(
        before.rules(),
        start,
        kind,
        payload,
        time,
    );
    crate::node::order::law_timers_fire_until_none_is_due::<S>(before.rules(), q, time);
    crate::node::order::law_time_never_runs_backwards(before, now);
    assert(p.frames.take(q.frames.len() as int)[0] == q.frames[0]);
    assert(p.frames[0] == q.frames[0]);
    law_newest_frames_are_kept(relayed.session, p.frames, 0);
    law_newest_frames_are_kept(relayed.session, relayed.before + p.frames, 0);
}

/// A server's votes are recorded in a file of their own in its directory.
pub proof fn law_ballots_lie_in_the_directory(dir: Seq<u8>)
    ensures
        crate::paths::is_child(ballot_path(dir), dir),
        !crate::paths::has_extension(ballot_path(dir), crate::paths::seg_ext()),
        !crate::paths::has_extension(ballot_path(dir), crate::paths::snap_ext()),
        ballot_path(dir).len() == dir.len() + 15,
{
    let name = ballot_name().skip(1);
    let p = ballot_path(dir);
    assert(p =~= crate::paths::join(dir, name));
    crate::paths::law_children_are_joined(dir, name, p);
    assert(p[p.len() - 1] == 0x65);
    if crate::paths::has_extension(p, crate::paths::seg_ext()) {
        let cut = p.len() - 3 - 1;
        assert(p.skip(cut + 1)[2] == 0x67);
    }
    if crate::paths::has_extension(p, crate::paths::snap_ext()) {
        let cut = p.len() - 4 - 1;
        assert(p.skip(cut + 1)[3] == 0x70);
    }
}

/// A leader syncs every frame, takes a snapshot every 500 and waits for no quorum.
pub proof fn law_leader_syncs_every_frame(config: NodeConfig, dir: Seq<u8>)
    requires
        leader_setup(config, dir),
    ensures
        config.journal.dir@ == dir,
        config.journal.fsync is EveryFrame,
        config.snapshot_every == Some(500u64),
        config.quorum is None,
{
}

/// The first thing that a new leader relays is the fence of its epoch, at the seq
/// behind what it found in its journal.
pub proof fn law_new_leader_fences_its_epoch<S: Service, T: TimeSource, St: Storage>(
    opened: Node<S, T, St>,
    node: Node<S, T, St>,
    epoch: u64,
    relayed: Relayed,
)
    requires
        opened.tip() + 2 <= u64::MAX,
        went_on(
            opened,
            node,
            FrameKind::EpochChange,
            opening_fence::<S>(epoch, opened.tip()),
            relayed,
            Seq::empty(),
        ),
    ensures
        relayed.packets.len() > 0,
        crate::transport::packet::read_packet(relayed.packets[0]) matches Ok(p) && (p matches crate::transport::packet::PacketModel::Data {
            session,
            frames,
        } && session == relayed.session && frames.len() == 1 && frames[0].seq == opened.tip() + 1
            && frames[0].kind == FrameKind::EpochChange && (crate::epoch::read_fence(
            frames[0].payload,
        ) matches Ok(fence) && fence.epoch == epoch && fence.first_seq.0 == frames[0].seq
            && fence.schema_version == S::SCHEMA_VERSION)),
{
    law_opening_fence_names_its_epoch::<S>(epoch, opened.tip());
    law_every_sequenced_frame_is_relayed(
        opened,
        node,
        FrameKind::EpochChange,
        opening_fence::<S>(epoch, opened.tip()),
        relayed,
        Seq::empty(),
    );
}

} // verus!
