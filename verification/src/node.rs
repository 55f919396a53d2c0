//! The single-node runtime: sequencer and deterministic service host.
//!
//! A [`Node`] orders, journals and executes. It stamps each input with the
//! next gapless seq and a timestamp (the only time a service ever sees),
//! appends the sequenced frame to the journal before applying it, so the log
//! is the system of record, and runs the service exactly once per frame, in
//! seq order. Timers that sequenced time has reached are sequenced as frames
//! of their own.
//!
//! Opening a node rebuilds its state from the newest usable snapshot and the
//! journal behind it: crash recovery is normal startup. Snapshots are an
//! optimization, never the system of record.

use vstd::prelude::*;

pub mod inspect;
pub mod order;
pub mod startup;

use crate::bus::{published, published_all, InProcBus};
use crate::codec::{CodecError, Encode};
use crate::epoch::{fence_payload, EpochChange};
use crate::frame::{Frame, FrameKind, Record, MAX_PAYLOAD_LEN};
use crate::journal::{below_cutoff, filing, held, segments, without_first, FsyncPolicy, Journal,
    JournalConfig, JournalError};
use crate::machine::{apply_frame, feed, machine_bytes, Machine};
use crate::quorum::{entries_encodable, flatten, flattened, held_outputs, ripe, Held, Quorum,
    QuorumModel};
use crate::recovery::{covered, is_snapshot, snapshots_synced, tells, Past};
use crate::seq::{SeqNo, Timestamp};
use crate::service::{all_encodable, encoded, OutBuf, Service};
use crate::snapshot::{numbered_files, snap_number, snapshot_files, surplus, SnapshotStore};
use crate::storage::{Disk, DiskModel, IoError, Storage};
use crate::timer::{next_due, TimerWheel};

verus! {

broadcast use crate::le::lemma_le_bytes_len;

/// Where the sequencer's timestamps come from. Only the sequencer reads
/// this; services read the sequenced time, which is replayed from the
/// journal.
pub trait TimeSource: Sized {
    /// Whether the clock may show `now` when it is read, and be `after` then.
    spec fn reads(&self, after: Self, now: u64) -> bool;

    fn now(&mut self) -> (r: Timestamp)
        ensures
            old(self).reads(*final(self), r.0),
    ;
}

/// A manually-advanced clock.
pub struct ManualClock(pub Timestamp);

impl TimeSource for ManualClock {
    /// It shows what it was set to, and stays.
    open spec fn reads(&self, after: Self, now: u64) -> bool {
        after == *self && now == self.0.0
    }

    fn now(&mut self) -> (r: Timestamp) {
        self.0
    }
}

#[derive(Debug)]
pub enum NodeError {
    Journal(JournalError),
    /// A journaled input failed to decode: the input schema no longer matches
    /// the journal.
    CorruptInput { seq: SeqNo, err: CodecError },
    /// The journal starts at `journal_first` and no usable snapshot covers
    /// what came before, so state cannot be rebuilt.
    UncoveredHistory { journal_first: SeqNo },
    /// The state is too large for a snapshot file.
    SnapshotTooLarge,
}

pub struct NodeConfig {
    pub journal: JournalConfig,
    /// Logical stream stamped on every frame this node sequences.
    pub stream_id: u16,
    /// Snapshot state every `n` sequenced frames; `None` is never.
    pub snapshot_every: Option<u64>,
    /// How many recent snapshots to retain after each new one; older ones are
    /// pruned and the journal is compacted below the oldest kept.
    pub retain_snapshots: usize,
    /// The number of voters and this leader's replica number, where outputs
    /// wait for a quorum.
    pub quorum: Option<(usize, u32)>,
}

impl NodeConfig {
    pub fn new(journal_dir: &[u8]) -> (r: Self)
        ensures
            r.journal.dir@ == journal_dir@,
            r.journal.segment_bytes == 1_073_741_824,
            r.journal.fsync == crate::journal::FsyncPolicy::Micros(50),
            r.stream_id == 1,
            r.snapshot_every is None,
            r.retain_snapshots == 2,
            r.quorum is None,
    {
        NodeConfig {
            journal: JournalConfig::new(journal_dir),
            stream_id: 1,
            snapshot_every: None,
            retain_snapshots: 2,
            quorum: None,
        }
    }

    /// Outputs wait until a majority of `voters` has journaled their frame;
    /// this node is replica `id` of them.
    pub fn with_quorum(self, voters: usize, id: u32) -> (r: Self)
        ensures
            r == (NodeConfig { quorum: Some((voters, id)), ..self }),
    {
        NodeConfig { quorum: Some((voters, id)), ..self }
    }
}

/// How opening rebuilt state.
#[derive(Debug, Clone, Copy, PartialEq, Eq, Structural)]
pub struct RecoveryInfo {
    /// The snapshot recovery restored from, if any.
    pub snapshot_seq: Option<SeqNo>,
    /// How many journaled inputs were applied on top.
    pub inputs_replayed: u64,
}

/// Why a node cannot sequence: the journal fails or is out of seqs, or the
/// state that is to be saved does not fit a snapshot file.
pub open spec fn cannot_go_on(e: NodeError) -> bool {
    e is Journal || e is SnapshotTooLarge
}

/// Whether a snapshot is due at `seq`.
pub open spec fn snapshot_due(every: Option<u64>, seq: u64) -> bool {
    every matches Some(n) && seq as int % (if n > 1 {
        n as int
    } else {
        1
    }) == 0
}

/// How far sequencing has come: the machine, the last seq, and what was
/// sequenced and put out on the way.
#[verifier::ext_equal]
pub struct Progress {
    pub machine: Machine,
    pub seq: u64,
    pub frames: Seq<Record>,
    pub outputs: Held,
}

/// What is the same for all frames a node sequences.
pub struct Rules<C> {
    pub config: C,
    pub stream_id: u16,
    pub every: Option<u64>,
}

/// The frame that comes next.
pub open spec fn next_frame<C>(
    rules: Rules<C>,
    p: Progress,
    kind: FrameKind,
    payload: Seq<u8>,
    time: u64,
) -> Record {
    Record { seq: (p.seq + 1) as u64, time, stream_id: rules.stream_id, kind, payload }
}

/// With one frame sequenced and executed.
pub open spec fn executed<S: Service>(
    rules: Rules<S::Config>,
    p: Progress,
    kind: FrameKind,
    payload: Seq<u8>,
    time: u64,
) -> Progress {
    let f = next_frame(rules, p, kind, payload, time);
    let (machine, outputs) = feed::<S>(rules.config, p.machine, f)->Ok_0;
    Progress {
        machine,
        seq: f.seq,
        frames: p.frames.push(f),
        outputs: if kind == FrameKind::Input || kind == FrameKind::TimerFired {
            p.outputs.push((f.seq, outputs))
        } else {
            p.outputs
        },
    }
}

/// With one frame sequenced and executed, and with the snapshot mark behind
/// it where a snapshot is due.
pub open spec fn sequenced<S: Service>(
    rules: Rules<S::Config>,
    p: Progress,
    kind: FrameKind,
    payload: Seq<u8>,
    time: u64,
) -> Progress {
    let q = executed::<S>(rules, p, kind, payload, time);
    if snapshot_due(rules.every, q.seq) {
        executed::<S>(rules, q, FrameKind::SnapshotMark, SeqNo(q.seq).bytes(), time)
    } else {
        q
    }
}

/// With every timer fired that is due at `time`, earliest first, those that
/// firing arms among them.
pub open spec fn fired<S: Service>(rules: Rules<S::Config>, p: Progress, time: u64) -> Progress
    decreases u64::MAX - p.seq,
{
    match next_due(p.machine.wheel, time) {
        Some(id) if p.seq < u64::MAX - 2 => {
            fired::<S>(
                rules,
                sequenced::<S>(rules, p, FrameKind::TimerFired, id.bytes(), time),
                time,
            )
        },
        _ => p,
    }
}

/// What sequencing one frame leads to, timers and snapshot marks included.
pub open spec fn advanced<S: Service>(
    rules: Rules<S::Config>,
    p: Progress,
    kind: FrameKind,
    payload: Seq<u8>,
    time: u64,
) -> Progress {
    fired::<S>(rules, sequenced::<S>(rules, p, kind, payload, time), time)
}

/// Where a node keeps what it writes, and how much of it.
pub struct Home {
    pub dir: Seq<u8>,
    pub segment_bytes: u64,
    pub retains: nat,
}

/// What a node that never syncs by itself has written: the disk, and whether
/// frames were appended since the last sync.
#[verifier::ext_equal]
pub struct Shelf {
    pub disk: DiskModel,
    pub pending: bool,
}

/// With the frame `f` journaled.
pub open spec fn shelved_frame(home: Home, shelf: Shelf, f: Record) -> Result<Shelf, NodeError> {
    match filing(shelf.disk, home.dir, shelf.pending, home.segment_bytes, f) {
        Ok(disk) => Ok(Shelf { disk, pending: true }),
        Err(e) => Err(NodeError::Journal(e)),
    }
}

/// With the machine written as the snapshot at `seq`.
pub open spec fn shelved_snapshot(
    home: Home,
    shelf: Shelf,
    seq: u64,
    m: Machine,
) -> Result<Shelf, NodeError> {
    let path = crate::paths::numbered(home.dir, seq, crate::paths::snap_ext());
    if !fits(m) {
        Err(NodeError::SnapshotTooLarge)
    } else if shelf.disk.has(path) {
        Err(NodeError::Journal(JournalError::Io(IoError::AlreadyExists)))
    } else {
        let file = crate::storage::FileModel {
            synced: machine_snapshot(seq, m).file(),
            unsynced: Seq::empty(),
        };
        Ok(Shelf { disk: shelf.disk.with(path, file), pending: shelf.pending })
    }
}

/// With the newest snapshots only, and with the journal compacted below the
/// oldest of them.
pub open spec fn trimmed(home: Home, disk: DiskModel) -> DiskModel {
    let ours = numbered_files(snapshot_files(disk, home.dir), home.dir);
    let cut = surplus(ours.len(), home.retains);
    let fewer = without_first(disk, ours, cut);
    if cut < ours.len() {
        let oldest = snap_number(ours[cut as int], home.dir)->0;
        let cutoff = (if oldest > 0 {
            oldest - 1
        } else {
            0
        }) as u64;
        let segs = segments(fewer, home.dir);
        without_first(fewer, segs, below_cutoff(segs, home.dir, cutoff, 0))
    } else {
        fewer
    }
}

/// With the snapshot written that is due, the mark behind it journaled, and
/// what is kept bounded.
pub open spec fn shelved_mark<C>(
    home: Home,
    rules: Rules<C>,
    shelf: Shelf,
    p: Progress,
    time: u64,
) -> Result<Shelf, NodeError> {
    match shelved_snapshot(home, shelf, p.seq, p.machine) {
        Err(e) => Err(e),
        Ok(one) => {
            let f = next_frame(rules, p, FrameKind::SnapshotMark, SeqNo(p.seq).bytes(), time);
            match shelved_frame(home, one, f) {
                Err(e) => Err(e),
                Ok(two) => Ok(Shelf { disk: trimmed(home, two.disk), pending: two.pending }),
            }
        },
    }
}

/// With one frame sequenced, and with the snapshot behind it where one is due.
pub open spec fn shelved_one<S: Service>(
    home: Home,
    rules: Rules<S::Config>,
    shelf: Shelf,
    p: Progress,
    kind: FrameKind,
    payload: Seq<u8>,
    time: u64,
) -> Result<Shelf, NodeError> {
    match shelved_frame(home, shelf, next_frame(rules, p, kind, payload, time)) {
        Err(e) => Err(e),
        Ok(one) => {
            let q = executed::<S>(rules, p, kind, payload, time);
            if snapshot_due(rules.every, q.seq) {
                shelved_mark(home, rules, one, q, time)
            } else {
                Ok(one)
            }
        },
    }
}

/// With every timer fired that is due at `time`.
pub open spec fn shelved_timers<S: Service>(
    home: Home,
    rules: Rules<S::Config>,
    shelf: Shelf,
    p: Progress,
    time: u64,
) -> Result<Shelf, NodeError>
    decreases u64::MAX - p.seq,
{
    match next_due(p.machine.wheel, time) {
        None => Ok(shelf),
        Some(id) => if p.seq >= u64::MAX - 2 {
            Err(NodeError::Journal(JournalError::SeqExhausted))
        } else {
            let kind = FrameKind::TimerFired;
            match shelved_one::<S>(home, rules, shelf, p, kind, id.bytes(), time) {
                Err(e) => Err(e),
                Ok(one) => shelved_timers::<S>(
                    home,
                    rules,
                    one,
                    sequenced::<S>(rules, p, kind, id.bytes(), time),
                    time,
                ),
            }
        },
    }
}

/// What sequencing one frame leads to on a disk that works, timers and
/// snapshot marks included.
pub open spec fn shelved<S: Service>(
    home: Home,
    rules: Rules<S::Config>,
    shelf: Shelf,
    p: Progress,
    kind: FrameKind,
    payload: Seq<u8>,
    time: u64,
) -> Result<Shelf, NodeError> {
    match shelved_one::<S>(home, rules, shelf, p, kind, payload, time) {
        Err(e) => Err(e),
        Ok(one) => shelved_timers::<S>(
            home,
            rules,
            one,
            sequenced::<S>(rules, p, kind, payload, time),
            time,
        ),
    }
}

/// The outputs that a submission freed, encoded; nothing where it failed.
pub open spec fn freed<O: Encode>(r: Result<(SeqNo, Vec<O>), NodeError>) -> Option<Seq<Seq<u8>>> {
    match r {
        Ok((_, out)) => Some(encoded(out@)),
        Err(_) => None,
    }
}

/// The snapshot files that are named by a number are named as snapshots are,
/// for seqs up to `tip`.
pub open spec fn tidy(disk: DiskModel, dir: Seq<u8>, tip: u64) -> bool {
    forall|p: Seq<u8>| #[trigger]
        is_snapshot(disk, dir, p) ==> (snap_number(p, dir) matches Some(n) ==> n <= tip && p
            == crate::paths::numbered(dir, n, crate::paths::snap_ext()))
}

/// A sequencer and service host.
pub struct Node<S: Service, T: TimeSource, St: Storage> {
    service: S,
    service_config: S::Config,
    journal_config: JournalConfig,
    storage: St,
    journal: Journal<St>,
    snapshots: SnapshotStore,
    snapshot_every: Option<u64>,
    retain_snapshots: usize,
    clock: T,
    stream_id: u16,
    seq: SeqNo,
    last_timestamp: Timestamp,
    wheel: TimerWheel,
    bus: InProcBus,
    recovery: RecoveryInfo,
    quorum: Option<Quorum<S::Output>>,
    past: Ghost<Past>,
}

impl<S: Service, T: TimeSource, St: Storage> Node<S, T, St> {
    /// The service's state and timers.
    pub closed spec fn machine(&self) -> Machine {
        Machine { state: self.service.state(), wheel: self.wheel@ }
    }

    /// The seq of the last sequenced frame.
    pub closed spec fn tip(&self) -> u64 {
        self.seq.0
    }

    /// The sequenced time.
    pub closed spec fn last_time(&self) -> u64 {
        self.last_timestamp.0
    }

    /// The clock that time is read from.
    pub closed spec fn clock(&self) -> T {
        self.clock
    }

    pub closed spec fn disk(&self) -> DiskModel {
        self.storage.view()
    }

    pub closed spec fn reliable(&self) -> bool {
        self.storage.reliable()
    }

    pub closed spec fn dir(&self) -> Seq<u8> {
        self.journal.dir()
    }

    pub closed spec fn rules(&self) -> Rules<S::Config> {
        Rules {
            config: self.service_config,
            stream_id: self.stream_id,
            every: self.snapshot_every,
        }
    }

    pub closed spec fn home(&self) -> Home {
        Home {
            dir: self.journal.dir(),
            segment_bytes: self.journal.segment_bytes(),
            retains: self.retain_snapshots as nat,
        }
    }

    /// Whether the node never syncs by itself.
    pub closed spec fn lazy(&self) -> bool {
        self.journal.fsync() == FsyncPolicy::Never
    }

    /// What the node has written.
    pub open spec fn shelf(&self) -> Shelf {
        Shelf { disk: self.disk(), pending: self.pending() }
    }

    /// On a disk that works, a node that never syncs by itself has written
    /// what `made` says, or failed for the reason that it gives.
    pub open spec fn wrote<R>(
        &self,
        before: &Self,
        made: Result<Shelf, NodeError>,
        r: Result<R, NodeError>,
    ) -> bool {
        before.reliable() && before.lazy() ==> match made {
            Ok(shelf) => r is Ok && self.shelf() == shelf,
            Err(e) => r is Err && r->Err_0 == e,
        }
    }

    pub closed spec fn retains(&self) -> nat {
        self.retain_snapshots as nat
    }

    /// What waits for each subscriber.
    pub closed spec fn waiting(&self) -> Seq<Seq<Record>> {
        self.bus@
    }

    /// What is known of the quorum, where outputs wait for one.
    pub closed spec fn quorum(&self) -> Option<QuorumModel> {
        match self.quorum {
            Some(q) => Some(q@),
            None => None,
        }
    }

    /// What [`Node::recovery_info`] tells.
    pub closed spec fn how_opened(&self) -> RecoveryInfo {
        self.recovery
    }

    /// The machine at each seq so far.
    pub closed spec fn history(&self) -> Past {
        self.past@
    }

    /// Whether the journal can go on without running into a left-over file.
    pub closed spec fn ready(&self) -> bool {
        self.journal.ready(self.storage.view())
    }

    /// Whether frames were sequenced since the last sync.
    pub closed spec fn pending(&self) -> bool {
        self.journal.pending()
    }

    /// Whether a frame with a payload of `len` bytes runs into no left-over
    /// file.
    pub closed spec fn takes(&self, len: nat) -> bool {
        !(self.journal.needs_roll(32 + len) && self.storage.view().has(
            crate::paths::numbered(
                self.journal.dir(),
                (self.journal.tip() + 1) as u64,
                crate::paths::seg_ext(),
            ),
        ))
    }

    /// A node that is ready takes every frame.
    pub proof fn lemma_takes(&self, len: nat)
        requires
            self.ready(),
        ensures
            self.takes(len),
    {
        self.journal.lemma_ready(self.storage.view(), self.storage.view());
    }

    /// No snapshot is on the disk.
    pub open spec fn bare(&self) -> bool {
        forall|p: Seq<u8>| !#[trigger] is_snapshot(self.disk(), self.dir(), p)
    }

    /// The frames in the journal.
    pub open spec fn frames(&self) -> Seq<Record> {
        held(self.disk(), self.dir()).frames
    }

    /// How many of them are durable.
    pub open spec fn durable(&self) -> nat {
        crate::durability::durable_frames(self.disk(), self.dir())
    }

    /// Where sequencing goes on from.
    pub open spec fn progress(&self) -> Progress {
        Progress {
            machine: self.machine(),
            seq: self.tip(),
            frames: Seq::empty(),
            outputs: Seq::empty(),
        }
    }

    /// The time stamped on a frame that is sequenced at `now`: sequenced time
    /// never runs backwards.
    pub open spec fn stamp(&self, now: u64) -> u64 {
        if now > self.last_time() {
            now
        } else {
            self.last_time()
        }
    }

    /// The node stands at the end of its journal.
    pub closed spec fn wf(&self) -> bool {
        &&& self.journal.wf(self.storage.view())
        &&& self.journal.dir() == self.snapshots.dir()
        &&& self.journal.dir() == self.journal_config.dir@
        &&& self.journal.tip() == self.seq.0
        &&& self.service.config() == self.service_config
    }

    /// Snapshots, where they are written, are retained.
    pub open spec fn keeps_cover(&self) -> bool {
        self.rules().every is None || self.retains() > 0
    }

    /// What is on the disk is true of the history that led to the machine.
    spec fn grounded(&self) -> bool {
        let disk = self.storage.view();
        let dir = self.journal.dir();
        &&& tells::<S>(self.service_config, self.past@, disk, dir)
        &&& self.past@.contains_key(self.seq.0)
        &&& self.past@[self.seq.0] == self.machine()
        &&& tidy(disk, dir, self.seq.0)
    }

    /// What is on the disk tells of the history that led to the machine.
    pub closed spec fn faithful(&self) -> bool {
        &&& self.grounded()
        &&& self.keeps_cover() ==> covered(self.storage.view(), self.journal.dir())
    }

    /// Everything is durable but what was appended since the last sync.
    pub closed spec fn settled(&self) -> bool {
        &&& self.journal.settled(self.storage.view())
        &&& snapshots_synced(self.storage.view(), self.journal.dir())
    }

    /// Nothing that stays the same while a node runs has changed.
    pub open spec fn same_setup(&self, before: &Self) -> bool {
        &&& self.dir() == before.dir()
        &&& self.rules() == before.rules()
        &&& self.retains() == before.retains()
        &&& self.home() == before.home()
        &&& self.lazy() == before.lazy()
        &&& self.reliable() == before.reliable()
        &&& self.disk().epoch == before.disk().epoch
    }

    /// What `history` says of the past is what it said before.
    pub open spec fn remembers(&self, before: &Self) -> bool {
        forall|k: u64|
            k <= before.tip() && #[trigger] before.history().contains_key(k)
                ==> self.history().contains_key(k) && self.history()[k] == before.history()[k]
    }

    /// A frame on its own: no snapshot is due behind it, and no timer.
    pub open spec fn alone(&self, kind: FrameKind, payload: Seq<u8>, time: u64) -> bool {
        &&& !snapshot_due(self.rules().every, (self.tip() + 1) as u64)
        &&& next_due(
            executed::<S>(
                self.rules(),
                self.progress(),
                kind,
                payload,
                time,
            ).machine.wheel,
            time,
        ) is None
    }

    /// Nothing was sequenced, and nothing applied.
    spec fn at_rest(&self, before: &Self) -> bool {
        &&& self.tip() == before.tip()
        &&& self.machine() == before.machine()
        &&& self.last_time() == before.last_time()
        &&& self.clock() == before.clock()
        &&& self.waiting() == before.waiting()
        &&& self.quorum() == before.quorum()
    }

    /// Whatever became of it, what the node sequenced since `before` went to
    /// its subscribers, and where it sequenced nothing it applied nothing.
    pub open spec fn goes_on_from(&self, before: &Self) -> bool {
        &&& self.tip() == before.tip() ==> {
            &&& self.machine() == before.machine()
            &&& self.last_time() == before.last_time()
            &&& self.waiting() == before.waiting()
        }
        &&& streamed(before.waiting(), before.tip(), self.waiting(), self.tip())
        &&& self.quorum() is None <==> before.quorum() is None
        &&& self.tip() == before.tip() || self.tip() < u64::MAX
    }

    /// Sequences one frame: journals it, then executes it.
    #[verifier::rlimit(60)]
    #[verifier::spinoff_prover]
    fn execute(&mut self, kind: FrameKind, payload: Vec<u8>, time: Timestamp) -> (r: Result<
        Vec<S::Output>,
        NodeError,
    >)
        requires
            payload@.len() <= MAX_PAYLOAD_LEN,
            feed::<S>(
                old(self).rules().config,
                old(self).machine(),
                next_frame(old(self).rules(), old(self).progress(), kind, payload@, time.0),
            ) is Ok,
        ensures
            final(self).goes_on_from(old(self)),
            r matches Ok(out) ==> all_encodable(out@),
            r is Ok ==> final(self).tip() == old(self).tip() + 1,
            r is Err ==> final(self).tip() == old(self).tip(),
            final(self).clock() == old(self).clock(),
            old(self).wf() ==> {
                &&& r matches Err(e) ==> cannot_go_on(e)
                &&& r matches Ok(out) ==> {
                    let p = executed::<S>(
                        old(self).rules(),
                        old(self).progress(),
                        kind,
                        payload@,
                        time.0,
                    );
                    let f = next_frame(old(self).rules(), old(self).progress(), kind, payload@, time.0);
                    &&& final(self).wf()
                    &&& final(self).same_setup(old(self))
                    &&& final(self).ready()
                    &&& p.seq < u64::MAX
                    &&& p.seq == old(self).tip() + 1
                    &&& final(self).tip() == p.seq
                    &&& final(self).machine() == p.machine
                    &&& final(self).last_time() == time.0
                    &&& final(self).frames() == old(self).frames().push(f)
                    &&& encoded(out@) == (feed::<S>(
                        old(self).rules().config,
                        old(self).machine(),
                        f,
                    )->Ok_0).1
                    &&& final(self).waiting() == published(old(self).waiting(), f)
                    &&& final(self).quorum() == match old(self).quorum() {
                        Some(q) => Some(q.acked(q.id, p.seq)),
                        None => None,
                    }
                    &&& old(self).faithful() ==> final(self).faithful() && final(self).history() == old(
                        self,
                    ).history().insert(p.seq, p.machine)
                    &&& old(self).faithful() ==> !final(self).disk().has(
                        crate::paths::numbered(
                            final(self).dir(),
                            p.seq,
                            crate::paths::snap_ext(),
                        ),
                    )
                    &&& old(self).settled() ==> final(self).settled() && final(self).durable() >= old(
                        self,
                    ).durable()
                    &&& crate::recovery::same_snapshots(
                        old(self).disk(),
                        final(self).disk(),
                        old(self).dir(),
                    )
                }
                &&& old(self).reliable() && old(self).takes(payload@.len()) ==> (r is Ok <==> old(
                    self,
                ).tip() + 1 < u64::MAX)
                &&& old(self).tip() < u64::MAX ==> final(self).wrote(
                    old(self),
                    shelved_frame(
                        old(self).home(),
                        old(self).shelf(),
                        next_frame(old(self).rules(), old(self).progress(), kind, payload@, time.0),
                    ),
                    r,
                )
            },
    {
        let ghost sound = self.wf();
        proof {
            if sound {
                self.journal.lemma_wf(self.storage.view());
                crate::frame::lemma_wire_len(
                    next_frame(self.rules(), self.progress(), kind, payload@, time.0),
                );
            }
        }
        let ghost before = *self;
        let ghost disk = self.storage.view();
        let ghost dir = self.journal.dir();
        proof {
            lemma_streamed_nothing(self.waiting(), self.tip());
        }
        if self.seq.0 == u64::MAX {
            return Err(NodeError::Journal(JournalError::SeqExhausted));
        }
        let seq = SeqNo(self.seq.0 + 1);
        let frame = Frame::new(seq, time, self.stream_id, kind, payload);
        if let Err(e) = self.journal.append(&mut self.storage, &frame) {
            return Err(NodeError::Journal(e));
        }
        self.seq = seq;
        self.last_timestamp = time;
        let mut outputs: OutBuf<S::Output> = OutBuf::new();
        if let Err(err) = apply_frame(&mut self.service, &mut self.wheel, &frame, &mut outputs) {
            return Err(NodeError::CorruptInput { seq, err });
        }
        self.bus.publish(&frame);
        if let Some(q) = &mut self.quorum {
            q.ack_self(seq);
        }
        proof {
            lemma_streamed_one(before.waiting(), before.tip(), frame@);
        }
        self.past = Ghost(self.past@.insert(seq.0, self.machine()));
        proof {
            if sound {
                let now = self.storage.view();
                self.journal.lemma_wf(now);
                lemma_appended_snapshots(disk, now, dir);
                if before.faithful() {
                    assert forall|p: Seq<u8>| #[trigger] is_snapshot(disk, dir, p) implies (
                    crate::snapshot::read_snapshot(disk.files[p].content()) matches Some(s) ==> s.seq
                        < seq.0) by {
                        if let Some(s) = crate::snapshot::read_snapshot(disk.files[p].content()) {
                            assert(crate::recovery::anchors::<S>(
                                before.service_config,
                                before.past@,
                                dir,
                                p,
                                s,
                            ));
                            crate::paths::lemma_numbered(dir, s.seq, crate::paths::snap_ext());
                        }
                    }
                    crate::recovery::lemma_frame_extends_history::<S>(
                        self.service_config,
                        before.past@,
                        disk,
                        now,
                        dir,
                        frame@,
                    );
                    assert forall|p: Seq<u8>| #[trigger] is_snapshot(now, dir, p) implies (snap_number(
                        p,
                        dir,
                    ) matches Some(n) ==> n < seq.0 && p == crate::paths::numbered(
                        dir,
                        n,
                        crate::paths::snap_ext(),
                    )) by {
                        assert(is_snapshot(disk, dir, p));
                    }
                    let path = crate::paths::numbered(dir, seq.0, crate::paths::snap_ext());
                    crate::paths::lemma_numbered(dir, seq.0, crate::paths::snap_ext());
                    assert(!is_snapshot(now, dir, path));
                }
                if before.settled() {
                    assert forall|p: Seq<u8>| #[trigger]
                        is_snapshot(now, dir, p) implies now.files[p].unsynced.len() == 0 by {
                        assert(is_snapshot(disk, dir, p));
                    }
                }
            }
        }
        Ok(outputs.drain())
    }

    /// Nothing but the disk has changed.
    pub open spec fn same_run(&self, before: &Self) -> bool {
        &&& self.same_setup(before)
        &&& self.tip() == before.tip()
        &&& self.machine() == before.machine()
        &&& self.last_time() == before.last_time()
        &&& self.waiting() == before.waiting()
        &&& self.quorum() == before.quorum()
        &&& self.history() == before.history()
    }

    /// Durably writes the machine as the snapshot at the current seq.
    fn write_snapshot(&mut self) -> (r: Result<(), NodeError>)
        ensures
            final(self).at_rest(old(self)),
            old(self).wf() ==> {
                &&& r matches Err(e) ==> cannot_go_on(e)
                &&& r is Ok ==> {
                    let path = crate::paths::numbered(
                        old(self).dir(),
                        old(self).tip(),
                        crate::paths::snap_ext(),
                    );
                    let s = machine_snapshot(old(self).tip(), old(self).machine());
                    &&& !old(self).disk().has(path)
                    &&& final(self).disk() == old(self).disk().with(
                        path,
                        crate::storage::FileModel { synced: s.file(), unsynced: Seq::empty() },
                    )
                    &&& s.payload.len() <= u32::MAX
                    &&& final(self).wf()
                    &&& final(self).same_run(old(self))
                    &&& final(self).frames() == old(self).frames()
                    &&& old(self).ready() ==> final(self).ready()
                    &&& old(self).faithful() ==> final(self).faithful() && holds_snapshot(
                        final(self).disk(),
                        final(self).dir(),
                        old(self).tip(),
                    )
                    &&& old(self).settled() ==> final(self).settled()
                }
                &&& old(self).reliable() ==> (r is Ok <==> fits(old(self).machine()) && !old(
                    self,
                ).disk().has(
                    crate::paths::numbered(
                        old(self).dir(),
                        old(self).tip(),
                        crate::paths::snap_ext(),
                    ),
                ))
                &&& final(self).wrote(
                    old(self),
                    shelved_snapshot(
                        old(self).home(),
                        old(self).shelf(),
                        old(self).tip(),
                        old(self).machine(),
                    ),
                    r,
                )
            },
    {
        let ghost sound = self.wf();
        let ghost before = *self;
        let ghost disk = self.storage.view();
        let ghost dir = self.journal.dir();
        let timers = self.wheel.snapshot();
        let ghost list = timers@;
        if timers.len() > u32::MAX as usize {
            return Err(NodeError::SnapshotTooLarge);
        }
        let mut payload: Vec<u8> = Vec::new();
        timers.encode(&mut payload);
        let snap = self.service.snapshot();
        snap.encode(&mut payload);
        let ghost s = machine_snapshot(self.seq.0, self.machine());
        assert(timers.bytes() =~= crate::machine::wheel_bytes(list));
        assert(payload@ =~= s.payload);
        if payload.len() > u32::MAX as usize {
            return Err(NodeError::SnapshotTooLarge);
        }
        if let Err(e) = self.snapshots.write(&mut self.storage, self.seq, 0, payload.as_slice()) {
            return Err(NodeError::Journal(e));
        }
        proof {
            if sound {
                let path = crate::paths::numbered(dir, self.seq.0, crate::paths::snap_ext());
                let now = self.storage.view();
                crate::paths::lemma_numbered(dir, self.seq.0, crate::paths::snap_ext());
                assert forall|p: Seq<u8>|
                    crate::paths::has_extension(p, crate::paths::seg_ext()) implies (#[trigger] now.has(
                    p,
                ) == disk.has(p)) && (disk.has(p) ==> now.files[p] == disk.files[p]) by {
                    crate::recovery::lemma_extensions_differ(p);
                }
                crate::recovery::lemma_segments_untouched(disk, now, dir);
                self.journal.lemma_other_files(disk, now);
                self.journal.lemma_wf(disk);
                crate::journal::lemma_same_segments(disk, now, dir);
                self.journal.lemma_ready(disk, now);
                crate::paths::lemma_numbered(
                    dir,
                    (self.seq.0 + 1) as u64,
                    crate::paths::seg_ext(),
                );
                crate::machine::law_machine_roundtrip::<S>(self.service, self.wheel@);
                if before.faithful() {
                    crate::recovery::lemma_snapshot_joins_history::<S>(
                        self.service_config,
                        self.past@,
                        disk,
                        dir,
                        s,
                    );
                }
                assert forall|p: Seq<u8>| #[trigger] is_snapshot(now, dir, p) implies p == path
                    || is_snapshot(disk, dir, p) by {
                    assert(now.has(p));
                }
                if before.faithful() {
                    assert(tidy(now, dir, self.seq.0));
                }
                if before.settled() {
                    assert(snapshots_synced(now, dir));
                }
            }
        }
        Ok(())
    }

    /// The snapshot for `at` was just written, and the frame behind it is the
    /// last.
    spec fn marked(&self, at: u64) -> bool {
        &&& self.rules().every is Some
        &&& holds_snapshot(self.disk(), self.dir(), at)
        &&& tidy(self.disk(), self.dir(), at)
        &&& self.tip() == at + 1
        &&& self.frames().len() > 0
    }

    /// Compacts the journal below `cutoff`.
    fn compact(&mut self, cutoff: SeqNo) -> (r: Result<(), NodeError>)
        ensures
            final(self).at_rest(old(self)),
            old(self).wf() ==> {
                &&& r matches Err(e) ==> cannot_go_on(e)
                &&& r is Ok ==> {
                    let first = crate::recovery::first_seq(held(old(self).disk(), old(self).dir()));
                    let now = crate::recovery::first_seq(held(final(self).disk(), old(self).dir()));
                    &&& final(self).wf()
                    &&& final(self).same_run(old(self))
                    &&& kept_end(final(self).frames(), old(self).frames())
                    &&& now == first || now <= cutoff.0 + 1
                    &&& old(self).grounded() ==> final(self).grounded()
                    &&& old(self).settled() ==> final(self).settled()
                    &&& old(self).ready() ==> final(self).ready()
                    &&& forall|p: Seq<u8>| #[trigger]
                        is_snapshot(old(self).disk(), old(self).dir(), p) ==> final(self).disk().has(p)
                            && final(self).disk().files[p] == old(self).disk().files[p]
                }
                &&& old(self).reliable() ==> r is Ok
                &&& r is Ok ==> final(self).shelf() == (Shelf {
                    disk: without_first(
                        old(self).disk(),
                        segments(old(self).disk(), old(self).dir()),
                        below_cutoff(
                            segments(old(self).disk(), old(self).dir()),
                            old(self).dir(),
                            cutoff.0,
                            0,
                        ),
                    ),
                    pending: old(self).pending(),
                })
            },
    {
        let ghost sound = self.wf();
        let ghost before = *self;
        let ghost disk = self.storage.view();
        let ghost dir = self.journal.dir();
        proof {
            if sound {
                self.journal.lemma_wf(disk);
            }
        }
        let done = self.journal.compact_below(&mut self.storage, cutoff);
        match done {
            Err(e) => Err(NodeError::Journal(e)),
            Ok(_) => {
                proof {
                    if sound {
                        let now = self.storage.view();
                        self.journal.lemma_wf(now);
                        lemma_compacted(disk, now, dir);
                        let was = held(disk, dir);
                        let dropped = was.frames.len() - held(now, dir).frames.len();
                        let segs = crate::journal::segments(disk, dir);
                        crate::journal::lemma_recover_order(segs, disk.files, segs.len());
                        if dropped > 0 {
                            assert(was.frames[dropped - 1].seq <= cutoff.0);
                        }
                        self.journal.lemma_ready(disk, now);
                        assert forall|p: Seq<u8>| #[trigger]
                            is_snapshot(now, dir, p) implies is_snapshot(disk, dir, p) && now.files[p]
                            == disk.files[p] by {
                            assert(now.has(p));
                        }
                        if before.grounded() {
                            crate::recovery::lemma_fewer_frames::<S>(
                                self.service_config,
                                self.past@,
                                disk,
                                now,
                                dir,
                                dropped,
                            );
                        }
                    }
                }
                Ok(())
            },
        }
    }

    /// Keeps the newest snapshots only, and compacts the journal below the
    /// oldest one kept.
    fn prune(&mut self, Ghost(at): Ghost<u64>) -> (r: Result<(), NodeError>)
        ensures
            final(self).at_rest(old(self)),
            old(self).wf() ==> {
                &&& r matches Err(e) ==> cannot_go_on(e)
                &&& r is Ok ==> {
                    &&& final(self).wf()
                    &&& final(self).same_run(old(self))
                    &&& kept_end(final(self).frames(), old(self).frames())
                    &&& old(self).faithful() && old(self).marked(at) ==> final(self).faithful()
                    &&& old(self).settled() ==> final(self).settled()
                    &&& old(self).ready() ==> final(self).ready()
                    &&& final(self).shelf() == (Shelf {
                        disk: trimmed(old(self).home(), old(self).disk()),
                        pending: old(self).pending(),
                    })
                }
                &&& old(self).reliable() ==> r is Ok
            },
    {
        let ghost sound = self.wf();
        let ghost before = *self;
        let ghost disk = self.storage.view();
        let ghost dir = self.journal.dir();
        let oldest = match self.snapshots.prune_keep_newest(
            &mut self.storage,
            self.retain_snapshots,
        ) {
            Ok(o) => o,
            Err(e) => {
                return Err(NodeError::Journal(e));
            },
        };
        let ghost mid = self.storage.view();
        let ghost kept = before.faithful() && before.marked(at);
        let ghost path = crate::paths::numbered(dir, at, crate::paths::snap_ext());
        proof {
            if sound {
                self.journal.lemma_wf(disk);
                lemma_pruned(disk, mid, dir, before.retains());
                self.journal.lemma_other_files(disk, mid);
                crate::journal::lemma_same_segments(disk, mid, dir);
                self.journal.lemma_ready(disk, mid);
                assert forall|p: Seq<u8>| #[trigger] is_snapshot(mid, dir, p) implies is_snapshot(
                    disk,
                    dir,
                    p,
                ) && mid.files[p] == disk.files[p] by {
                    assert(mid.has(p));
                }
                if before.faithful() {
                    crate::recovery::lemma_fewer_snapshots::<S>(
                        self.service_config,
                        self.past@,
                        disk,
                        mid,
                        dir,
                    );
                    assert(tidy(mid, dir, self.seq.0));
                    assert(self.grounded());
                }
                assert(self.wf());
                assert(self.frames() == before.frames());
                assert(before.settled() ==> self.settled());
                assert(before.ready() ==> self.ready());
                if kept && before.retains() > 0 {
                    lemma_newest_stays(disk, mid, dir, before.retains(), at);
                }
            }
        }
        if let Some(oldest) = oldest {
            let cutoff: u64 = if oldest.0 > 0 {
                oldest.0 - 1
            } else {
                0
            };
            self.compact(SeqNo(cutoff))?;
        }
        proof {
            if sound {
                let now = self.storage.view();
                assert(held(disk, dir).frames.skip(0) =~= held(disk, dir).frames);
                if kept && before.retains() > 0 {
                    lemma_kept_numbers(disk, dir, before.retains(), at);
                    assert(is_snapshot(now, dir, path));
                    let first = crate::recovery::first_seq(held(now, dir));
                    assert(crate::recovery::covers(now, dir, path, first));
                }
            }
        }
        Ok(())
    }

    /// The node has gone on from `before` as `p` says, at sequenced time
    /// `time`.
    pub open spec fn stands_at(&self, before: &Self, p: Progress, time: u64) -> bool {
        &&& self.moved(before, p, time)
        &&& self.quorum() == match before.quorum() {
            Some(q) => Some(q.acked(q.id, p.seq)),
            None => None,
        }
    }

    /// The same, whatever became of the quorum.
    pub open spec fn moved(&self, before: &Self, p: Progress, time: u64) -> bool {
        &&& self.wf()
        &&& self.ready()
        &&& self.same_setup(before)
        &&& p.seq < u64::MAX
        &&& self.tip() == p.seq
        &&& self.machine() == p.machine
        &&& self.last_time() == time
        &&& kept_end(self.frames(), before.frames() + p.frames)
        &&& before.rules().every is None ==> self.frames() == before.frames() + p.frames
        &&& self.waiting() == published_all(before.waiting(), p.frames)
        &&& run_of(p.frames, before.tip(), p.seq)
        &&& before.faithful() ==> self.faithful() && self.remembers(before)
        &&& before.settled() ==> self.settled()
        &&& before.settled() && before.rules().every is None ==> self.durable() >= before.durable()
        &&& before.rules().every is None && before.bare() ==> self.bare()
    }

    /// Going on twice is going on.
    proof fn lemma_goes_on(&self, middle: &Self, before: &Self, p: Progress, q: Progress, time: u64)
        requires
            middle.stands_at(before, p, time),
            self.stands_at(middle, q, time),
            before.tip() <= p.seq <= q.seq,
        ensures
            self.stands_at(
                before,
                Progress {
                    machine: q.machine,
                    seq: q.seq,
                    frames: p.frames + q.frames,
                    outputs: p.outputs + q.outputs,
                },
                time,
            ),
    {
        let frames = p.frames + q.frames;
        let all = before.frames() + frames;
        let end = middle.frames() + q.frames;
        assert(all =~= (before.frames() + p.frames) + q.frames);
        assert(end =~= all.skip(all.len() - end.len()));
        assert(end.skip(end.len() - self.frames().len()) =~= all.skip(
            all.len() - self.frames().len(),
        ));
        crate::bus::lemma_published_in_parts(before.waiting(), p.frames, q.frames);
        lemma_runs_join(p.frames, q.frames, before.tip(), p.seq, q.seq);
        if let Some(model) = before.quorum() {
            assert(model.acked(model.id, p.seq).acked(model.id, q.seq) =~= model.acked(
                model.id,
                q.seq,
            ));
        }
        if before.faithful() {
            assert forall|k: u64|
                k <= before.tip() && #[trigger] before.history().contains_key(
                    k,
                ) implies self.history().contains_key(k) && self.history()[k]
                == before.history()[k] by {
                assert(middle.history().contains_key(k));
            }
        }
    }

    /// Durably writes the snapshot at the current seq, then sequences the mark
    /// that advertises it, and bounds what is kept on disk. The mark carries the
    /// time of the frame in front of it: timers that fire behind the mark are
    /// stamped with the time that triggered them, and sequenced time never goes
    /// back.
    fn mark_snapshot(&mut self, time: Timestamp) -> (r: Result<(), NodeError>)
        requires
            old(self).rules().every is Some,
        ensures
            final(self).clock() == old(self).clock(),
            final(self).goes_on_from(old(self)),
            r is Ok ==> final(self).tip() > old(self).tip(),
            old(self).wf() ==> {
                &&& r matches Err(e) ==> cannot_go_on(e)
                &&& r is Ok ==> final(self).stands_at(
                    old(self),
                    executed::<S>(
                        old(self).rules(),
                        old(self).progress(),
                        FrameKind::SnapshotMark,
                        SeqNo(old(self).tip()).bytes(),
                        time.0,
                    ),
                    time.0,
                )
                &&& r is Ok ==> old(self).tip() < u64::MAX
                &&& old(self).reliable() && old(self).ready() && fits(old(self).machine()) && !old(
                    self,
                ).disk().has(
                    crate::paths::numbered(
                        old(self).dir(),
                        old(self).tip(),
                        crate::paths::snap_ext(),
                    ),
                ) ==> (r is Ok <==> old(self).tip() + 1 < u64::MAX)
                &&& old(self).tip() < u64::MAX ==> final(self).wrote(
                    old(self),
                    shelved_mark(
                        old(self).home(),
                        old(self).rules(),
                        old(self).shelf(),
                        old(self).progress(),
                        time.0,
                    ),
                    r,
                )
            },
    {
        let ghost sound = self.wf();
        let ghost first = *self;
        proof {
            lemma_streamed_nothing(self.waiting(), self.tip());
        }
        self.write_snapshot()?;
        let ghost second = *self;
        let at: SeqNo = self.seq;
        let mut mark: Vec<u8> = Vec::new();
        at.encode(&mut mark);
        assert(mark@ =~= at.bytes());
        assert(at.bytes().len() == 8);
        proof {
            if sound {
                if self.ready() {
                    self.lemma_takes(8);
                }
            }
        }
        self.execute(FrameKind::SnapshotMark, mark, time)?;
        let ghost third = *self;
        let ghost rules = self.rules();
        let ghost g = next_frame(
            rules,
            second.progress(),
            FrameKind::SnapshotMark,
            at.bytes(),
            time.0,
        );
        proof {
            if sound {
                let dir = self.dir();
                let path = crate::paths::numbered(dir, at.0, crate::paths::snap_ext());
                if first.faithful() {
                    assert(holds_snapshot(second.disk(), dir, at.0));
                    assert(is_snapshot(second.disk(), dir, path));
                    assert(is_snapshot(third.disk(), dir, path));
                    assert(tidy(third.disk(), dir, at.0)) by {
                        assert forall|p: Seq<u8>| #[trigger] is_snapshot(third.disk(), dir, p) implies (
                        snap_number(p, dir) matches Some(n) ==> n <= at.0 && p
                            == crate::paths::numbered(dir, n, crate::paths::snap_ext())) by {
                            assert(is_snapshot(second.disk(), dir, p));
                        }
                    }
                    assert(third.marked(at.0));
                }
                crate::bus::lemma_published(first.waiting(), Seq::empty(), g);
                assert(Seq::<Record>::empty().push(g) =~= seq![g]);
                assert(first.frames() + seq![g] =~= first.frames().push(g));
                lemma_run_of_one(g, first.tip());
            }
        }
        self.prune(Ghost(at.0))
    }

    /// Sequences one frame, and snapshots on cadence: the state is durably
    /// written before the mark behind the frame advertises it. The mark itself
    /// never triggers another snapshot.
    fn sequence(&mut self, kind: FrameKind, payload: Vec<u8>, time: Timestamp) -> (r: Result<
        Vec<S::Output>,
        NodeError,
    >)
        requires
            payload@.len() <= MAX_PAYLOAD_LEN,
            feed::<S>(
                old(self).rules().config,
                old(self).machine(),
                next_frame(old(self).rules(), old(self).progress(), kind, payload@, time.0),
            ) is Ok,
        ensures
            final(self).clock() == old(self).clock(),
            final(self).goes_on_from(old(self)),
            r matches Ok(out) ==> all_encodable(out@),
            r is Ok ==> final(self).tip() > old(self).tip(),
            old(self).wf() ==> {
                &&& r matches Err(e) ==> cannot_go_on(e)
                &&& r is Err && old(self).alone(kind, payload@, time.0) ==> final(self).tip()
                    == old(self).tip()
                &&& r matches Ok(out) ==> {
                    let p = sequenced::<S>(
                        old(self).rules(),
                        old(self).progress(),
                        kind,
                        payload@,
                        time.0,
                    );
                    &&& old(self).tip() < p.seq
                    &&& final(self).stands_at(old(self), p, time.0)
                    &&& encoded(out@) == (feed::<S>(
                        old(self).rules().config,
                        old(self).machine(),
                        next_frame(old(self).rules(), old(self).progress(), kind, payload@, time.0),
                    )->Ok_0).1
                }
                &&& old(self).reliable() && old(self).takes(payload@.len()) && old(self).faithful() && old(
                    self,
                ).tip() + 2 < u64::MAX && (snapshot_due(old(self).rules().every, (old(self).tip() + 1) as u64)
                    ==> fits(
                    executed::<S>(
                        old(self).rules(),
                        old(self).progress(),
                        kind,
                        payload@,
                        time.0,
                    ).machine,
                )) ==> r is Ok
                &&& old(self).tip() < u64::MAX ==> final(self).wrote(
                    old(self),
                    shelved_one::<S>(
                        old(self).home(),
                        old(self).rules(),
                        old(self).shelf(),
                        old(self).progress(),
                        kind,
                        payload@,
                        time.0,
                    ),
                    r,
                )
            },
    {
        let ghost sound = self.wf();
        let ghost start = *self;
        let ghost rules = self.rules();
        let ghost bytes = payload@;
        let ghost f = next_frame(rules, self.progress(), kind, bytes, time.0);
        let out = self.execute(kind, payload, time)?;
        let ghost first = *self;
        let due: bool = match self.snapshot_every {
            Some(n) => {
                let every: u64 = if n > 1 {
                    n
                } else {
                    1
                };
                self.seq.0 % every == 0
            },
            None => false,
        };
        let ghost p = executed::<S>(rules, start.progress(), kind, bytes, time.0);
        assert(sound ==> due == snapshot_due(rules.every, p.seq));
        proof {
            if sound {
                crate::bus::lemma_published(start.waiting(), Seq::empty(), f);
                assert(Seq::<Record>::empty().push(f) =~= p.frames);
                assert(start.frames() + p.frames =~= start.frames().push(f));
                lemma_run_of_one(f, start.tip());
                assert(p.frames =~= seq![f]);
                assert(self.frames().skip(0) =~= self.frames());
                assert(self.stands_at(&start, p, time.0));
            }
        }
        if due {
            let marked = self.mark_snapshot(time);
            proof {
                lemma_streamed_on(
                    start.waiting(),
                    start.tip(),
                    first.waiting(),
                    first.tip(),
                    self.waiting(),
                    self.tip(),
                );
            }
            marked?;
            proof {
                if sound {
                    let mark = SeqNo(p.seq).bytes();
                    let q = executed::<S>(
                        rules,
                        first.progress(),
                        FrameKind::SnapshotMark,
                        mark,
                        time.0,
                    );
                    self.lemma_goes_on(&first, &start, p, q, time.0);
                    let whole = executed::<S>(rules, p, FrameKind::SnapshotMark, mark, time.0);
                    assert(whole.frames =~= p.frames + q.frames);
                    assert(whole.outputs =~= p.outputs + q.outputs);
                }
            }
        }
        Ok(out)
    }

    /// Sequences one frame and then, one by one, a frame for every timer that
    /// is due. All carry the trigger's time, so sequenced time does not move
    /// while timers fire.
    fn advance(&mut self, kind: FrameKind, payload: Vec<u8>, time: Timestamp) -> (r: Result<
        Vec<(SeqNo, Vec<S::Output>)>,
        NodeError,
    >)
        requires
            payload@.len() <= MAX_PAYLOAD_LEN,
            feed::<S>(
                old(self).rules().config,
                old(self).machine(),
                next_frame(old(self).rules(), old(self).progress(), kind, payload@, time.0),
            ) is Ok,
        ensures
            r is Ok ==> final(self).tip() > old(self).tip(),
            final(self).clock() == old(self).clock(),
            final(self).goes_on_from(old(self)),
            r matches Ok(entries) ==> entries_encodable(entries@),
            old(self).wf() ==> {
                &&& r matches Err(e) ==> cannot_go_on(e)
                &&& r is Err && old(self).alone(kind, payload@, time.0) ==> final(self).tip()
                    == old(self).tip()
                &&& r matches Ok(entries) ==> {
                    let p = advanced::<S>(
                        old(self).rules(),
                        old(self).progress(),
                        kind,
                        payload@,
                        time.0,
                    );
                    &&& old(self).tip() < p.seq
                    &&& final(self).stands_at(old(self), p, time.0)
                    &&& held_outputs(entries@) == p.outputs
                }
                &&& old(self).smooth(kind, payload@, time.0) ==> r is Ok
                &&& old(self).tip() < u64::MAX ==> final(self).wrote(
                    old(self),
                    shelved::<S>(
                        old(self).home(),
                        old(self).rules(),
                        old(self).shelf(),
                        old(self).progress(),
                        kind,
                        payload@,
                        time.0,
                    ),
                    r,
                )
            },
    {
        let ghost sound = self.wf();
        let ghost start = *self;
        let ghost rules = self.rules();
        let ghost bytes = payload@;
        let mut entries: Vec<(SeqNo, Vec<S::Output>)> = Vec::new();
        proof {
            if sound {
                assert(held_outputs(entries@) =~= Seq::empty());
                reveal_with_fuel(smooth_from, 1);
            }
        }
        let first: SeqNo = SeqNo(self.seq.0.wrapping_add(1));
        let ghost made = shelved::<S>(
            self.home(),
            rules,
            self.shelf(),
            self.progress(),
            kind,
            bytes,
            time.0,
        );
        let out = self.sequence(kind, payload, time)?;
        let ghost mut p = sequenced::<S>(rules, start.progress(), kind, bytes, time.0);
        if kind == FrameKind::Input || kind == FrameKind::TimerFired {
            let ghost before = entries@;
            entries.push((first, out));
            assert(held_outputs(entries@) =~= held_outputs(before).push((first.0, encoded(out@))));
        }
        assert(sound ==> held_outputs(entries@) =~= p.outputs);
        loop
            invariant_except_break
                sound ==> {
                    &&& self.stands_at(&start, p, time.0)
                    &&& start.tip() < p.seq
                    &&& held_outputs(entries@) == p.outputs
                    &&& start.alone(kind, bytes, time.0) ==> next_due(
                        p.machine.wheel,
                        time.0,
                    ) is None
                    &&& fired::<S>(rules, p, time.0) == advanced::<S>(
                        rules,
                        start.progress(),
                        kind,
                        bytes,
                        time.0,
                    )
                    &&& start.smooth(kind, bytes, time.0) ==> start.reliable() && start.faithful()
                        && smooth_from::<S>(rules, p, time.0)
                    &&& start.reliable() && start.lazy() ==> made == shelved_timers::<S>(
                        start.home(),
                        rules,
                        self.shelf(),
                        p,
                        time.0,
                    )
                },
                made == shelved::<S>(
                    start.home(),
                    rules,
                    start.shelf(),
                    start.progress(),
                    kind,
                    bytes,
                    time.0,
                ),
                self.goes_on_from(&start),
                self.clock() == start.clock(),
                self.tip() > start.tip(),
                rules == start.rules(),
                start == *old(self),
                sound == start.wf(),
                bytes == payload@,
                entries_encodable(entries@),
            ensures
                sound ==> {
                    let end = advanced::<S>(rules, start.progress(), kind, bytes, time.0);
                    &&& self.stands_at(&start, end, time.0)
                    &&& start.tip() < end.seq
                    &&& held_outputs(entries@) == end.outputs
                    &&& start.reliable() && start.lazy() ==> made == Ok::<Shelf, NodeError>(
                        self.shelf(),
                    )
                },
                self.goes_on_from(&start),
                self.clock() == start.clock(),
                self.tip() > start.tip(),
                entries_encodable(entries@),
            decreases u64::MAX - self.seq.0,
        {
            let due = self.wheel.peek_due(time);
            match due {
                None => {
                    break;
                },
                Some(id) => {
                    if self.seq.0 >= u64::MAX - 2 {
                        return Err(NodeError::Journal(JournalError::SeqExhausted));
                    }
                    let ghost middle = *self;
                    let mut body: Vec<u8> = Vec::new();
                    id.encode(&mut body);
                    assert(body@ =~= id.bytes());
                    proof {
                        lemma_fired_id(id);
                        if sound {
                            reveal_with_fuel(smooth_from, 2);
                            self.lemma_takes(8);
                        }
                    }
                    let at: SeqNo = SeqNo(self.seq.0 + 1);
                    let fired = self.sequence(FrameKind::TimerFired, body, time);
                    proof {
                        lemma_streamed_on(
                            start.waiting(),
                            start.tip(),
                            middle.waiting(),
                            middle.tip(),
                            self.waiting(),
                            self.tip(),
                        );
                    }
                    let out = fired?;
                    let ghost before = entries@;
                    entries.push((at, out));
                    proof {
                        if sound {
                            let q = sequenced::<S>(
                                rules,
                                middle.progress(),
                                FrameKind::TimerFired,
                                id.bytes(),
                                time.0,
                            );
                            self.lemma_goes_on(&middle, &start, p, q, time.0);
                            lemma_sequenced_behind::<S>(
                                rules,
                                p,
                                FrameKind::TimerFired,
                                id.bytes(),
                                time.0,
                            );
                            assert(held_outputs(entries@) =~= held_outputs(before).push(
                                (at.0, encoded(out@)),
                            ));
                            assert(q.outputs =~= seq![(at.0, encoded(out@))]);
                            p = sequenced::<S>(rules, p, FrameKind::TimerFired, id.bytes(), time.0);
                            assert(held_outputs(entries@) =~= p.outputs);
                        }
                    }
                },
            }
        }
        Ok(entries)
    }

    /// Nothing stands in the way of sequencing a frame: the disk works, seqs
    /// are left, and every state that is to be saved fits a snapshot.
    pub open spec fn smooth(&self, kind: FrameKind, payload: Seq<u8>, time: u64) -> bool {
        &&& self.reliable()
        &&& self.takes(payload.len())
        &&& self.faithful()
        &&& runs_on::<S>(self.rules(), self.progress(), kind, payload, time)
    }

    /// Holds outputs back where they wait for a quorum.
    fn hold_all(&mut self, entries: Vec<(SeqNo, Vec<S::Output>)>)
        requires
            old(self).quorum() is Some,
            entries_encodable(entries@),
        ensures
            *final(self) == (Node { quorum: final(self).quorum, ..*old(self) }),
            final(self).quorum() == Some(
                old(self).quorum()->0.holding(held_outputs(entries@)),
            ),
    {
        let ghost given = entries@;
        let mut entries = entries;
        let ghost all = held_outputs(entries@);
        let ghost q = self.quorum()->0;
        let n: usize = entries.len();
        let mut i: usize = 0;
        assert(q.holding(all.take(0)) =~= q);
        while i < n
            invariant
                i <= n == entries@.len() == all.len(),
                *self == (Node { quorum: self.quorum, ..*old(self) }),
                self.quorum() == Some(q.holding(all.take(i as int))),
                forall|j: int| i <= j < n ==> #[trigger] held_outputs(entries@)[j] == all[j],
                n == given.len(),
                forall|j: int| i <= j < n ==> #[trigger] entries@[j] == given[j],
                entries_encodable(given),
            decreases n - i,
        {
            let ghost was = entries@;
            let ghost so_far = q.holding(all.take(i as int));
            let mut outputs: Vec<S::Output> = Vec::new();
            let seq: SeqNo = entries[i].0;
            std::mem::swap(&mut outputs, &mut entries[i].1);
            assert(held_outputs(was)[i as int] == all[i as int]);
            assert(was[i as int] == given[i as int]);
            if let Some(held) = &mut self.quorum {
                held.hold(seq, outputs);
            }
            proof {
                assert(so_far.holding(seq![all[i as int]]) =~= q.holding(all.take(i + 1)));
                assert forall|j: int| i + 1 <= j < n implies #[trigger] held_outputs(entries@)[j]
                    == all[j] by {
                    assert(entries@[j] == was[j]);
                    assert(held_outputs(was)[j] == all[j]);
                }
            }
            i = i + 1;
        }
        assert(all.take(n as int) =~= all);
    }

    /// What `submit` gives back: without a quorum, the outputs of this input
    /// and of the timers that fired; with one, whatever a majority now holds,
    /// in order, the rest being held back.
    pub open spec fn released(&self, before: &Self, p: Progress, out: Seq<Seq<u8>>) -> bool {
        match before.quorum() {
            None => self.quorum() is None && out == flattened(p.outputs),
            Some(q) => {
                let all = q.acked(q.id, p.seq).holding(p.outputs);
                exists|w: u64| #[trigger]
                    all.commits(w) && out == flattened(all.pending.take(ripe(all.pending, w) as int))
                        && self.quorum() == Some(all.released(ripe(all.pending, w)))
            },
        }
    }

    /// What sequencing a frame at time `now` leads to on a disk that works.
    pub open spec fn shelving(&self, kind: FrameKind, payload: Seq<u8>, now: u64) -> Result<
        Shelf,
        NodeError,
    > {
        shelved::<S>(
            self.home(),
            self.rules(),
            self.shelf(),
            self.progress(),
            kind,
            payload,
            self.stamp(now),
        )
    }

    /// Sequences, journals and applies one input at time `now`. Returns the
    /// assigned seq and the outputs that are free to leave.
    pub fn submit_at(&mut self, input: &S::Input, now: Timestamp) -> (r: Result<
        (SeqNo, Vec<S::Output>),
        NodeError,
    >)
        requires
            input.encodable(),
            input.bytes().len() <= MAX_PAYLOAD_LEN,
        ensures
            r is Ok ==> final(self).tip() > old(self).tip(),
            final(self).clock() == old(self).clock(),
            final(self).goes_on_from(old(self)),
            r matches Ok((seq, out)) ==> seq.0 == old(self).tip() + 1 && all_encodable(out@),
            old(self).wf() ==> {
                &&& r matches Err(e) ==> cannot_go_on(e)
                &&& r is Err && old(self).alone(FrameKind::Input, input.bytes(), old(self).stamp(now.0)) ==> final(self).tip()
                    == old(self).tip()
                &&& r matches Ok((seq, out)) ==> {
                    let time = old(self).stamp(now.0);
                    let p = advanced::<S>(
                        old(self).rules(),
                        old(self).progress(),
                        FrameKind::Input,
                        input.bytes(),
                        time,
                    );
                    &&& final(self).moved(old(self), p, time)
                    &&& final(self).released(old(self), p, encoded(out@))
                }
                &&& old(self).smooth(FrameKind::Input, input.bytes(), old(self).stamp(now.0)) ==> r is Ok
                &&& old(self).tip() < u64::MAX ==> final(self).wrote(
                    old(self),
                    old(self).shelving(FrameKind::Input, input.bytes(), now.0),
                    r,
                )
            },
    {
        let ghost sound = self.wf();
        proof {
            if sound {
                self.journal.lemma_wf(self.storage.view());
            }
            crate::codec::law_encoding_is_accepted(*input);
        }
        let mut payload: Vec<u8> = Vec::new();
        input.encode(&mut payload);
        assert(payload@ =~= input.bytes());
        let time: Timestamp = if now.0 > self.last_timestamp.0 {
            now
        } else {
            self.last_timestamp
        };
        proof {
            lemma_streamed_nothing(self.waiting(), self.tip());
        }
        if self.seq.0 == u64::MAX {
            return Err(NodeError::Journal(JournalError::SeqExhausted));
        }
        let seq: SeqNo = SeqNo(self.seq.0 + 1);
        let entries = self.advance(FrameKind::Input, payload, time)?;
        let ghost middle = *self;
        if self.quorum.is_none() {
            let out = flatten(entries);
            return Ok((seq, out));
        }
        self.hold_all(entries);
        let ghost all = self.quorum()->0;
        let mut freed: Vec<(SeqNo, Vec<S::Output>)> = Vec::new();
        if let Some(q) = &mut self.quorum {
            freed = q.release();
        }
        proof {
            if sound {
                let w = choose|w: u64|
                    {
                        let k = ripe(all.pending, w);
                        &&& #[trigger] all.commits(w)
                        &&& held_outputs(freed@) == all.pending.take(k as int)
                        &&& self.quorum()->0 == all.released(k)
                    };
                assert(all.commits(w));
                self.lemma_same_but_quorum(&middle);
            }
        }
        let out = flatten(freed);
        Ok((seq, out))
    }

    /// The quorum has no part in where a node stands.
    proof fn lemma_same_but_quorum(&self, before: &Self)
        requires
            *self == (Node { quorum: self.quorum, ..*before }),
        ensures
            self.still(before),
    {
    }

    /// The node stands where it stood, whatever became of the quorum.
    pub open spec fn still(&self, before: &Self) -> bool {
        &&& self.unmoved(before)
        &&& self.waiting() == before.waiting()
    }

    /// The node stands where it stood, whatever became of the quorum and of
    /// what waits for subscribers.
    pub open spec fn unmoved(&self, before: &Self) -> bool {
        &&& self.wf() == before.wf()
        &&& self.ready() == before.ready()
        &&& forall|len: nat| #[trigger] self.takes(len) == before.takes(len)
        &&& self.faithful() == before.faithful()
        &&& self.settled() == before.settled()
        &&& self.same_setup(before)
        &&& self.frames() == before.frames()
        &&& self.disk() == before.disk()
        &&& self.pending() == before.pending()
        &&& self.machine() == before.machine()
        &&& self.tip() == before.tip()
        &&& self.last_time() == before.last_time()
        &&& self.history() == before.history()
    }

    /// Sequences one frame that is no input at time `now`.
    fn control_at(&mut self, kind: FrameKind, payload: Vec<u8>, now: Timestamp) -> (r: Result<
        SeqNo,
        NodeError,
    >)
        requires
            payload@.len() <= MAX_PAYLOAD_LEN,
            kind != FrameKind::Input && kind != FrameKind::TimerFired,
        ensures
            r is Ok ==> final(self).tip() > old(self).tip(),
            final(self).clock() == old(self).clock(),
            final(self).goes_on_from(old(self)),
            old(self).wf() ==> {
                &&& r matches Err(e) ==> cannot_go_on(e)
                &&& r is Err && old(self).alone(kind, payload@, old(self).stamp(now.0)) ==> final(self).tip()
                    == old(self).tip()
                &&& r is Ok ==> final(self).noted(
                    old(self),
                    kind,
                    payload@,
                    now.0,
                )
                &&& old(self).smooth(kind, payload@, old(self).stamp(now.0)) ==> r is Ok
                &&& old(self).tip() < u64::MAX ==> final(self).wrote(
                    old(self),
                    old(self).shelving(kind, payload@, now.0),
                    r,
                )
            },
            r matches Ok(seq) ==> seq.0 == old(self).tip() + 1,
    {
        let ghost sound = self.wf();
        proof {
            if sound {
                self.journal.lemma_wf(self.storage.view());
            }
        }
        let time: Timestamp = if now.0 > self.last_timestamp.0 {
            now
        } else {
            self.last_timestamp
        };
        proof {
            lemma_streamed_nothing(self.waiting(), self.tip());
        }
        if self.seq.0 == u64::MAX {
            return Err(NodeError::Journal(JournalError::SeqExhausted));
        }
        let seq: SeqNo = SeqNo(self.seq.0 + 1);
        let entries = self.advance(kind, payload, time)?;
        let ghost middle = *self;
        if self.quorum.is_some() {
            self.hold_all(entries);
            proof {
                if sound {
                    self.lemma_same_but_quorum(&middle);
                }
            }
        }
        Ok(seq)
    }

    /// What sequencing a frame that is no input leads to. Outputs of timers
    /// that fire are held back where there is a quorum.
    pub open spec fn noted(
        &self,
        before: &Self,
        kind: FrameKind,
        payload: Seq<u8>,
        now: u64,
    ) -> bool {
        let time = before.stamp(now);
        let p = advanced::<S>(before.rules(), before.progress(), kind, payload, time);
        &&& self.moved(before, p, time)
        &&& self.quorum() == match before.quorum() {
            Some(q) => Some(q.acked(q.id, p.seq).holding(p.outputs)),
            None => None,
        }
    }

    /// Injects a sequenced tick at time `now`, which advances deterministic
    /// time without an application input.
    pub fn tick_at(&mut self, now: Timestamp) -> (r: Result<SeqNo, NodeError>)
        ensures
            r is Ok ==> final(self).tip() > old(self).tip(),
            final(self).clock() == old(self).clock(),
            final(self).goes_on_from(old(self)),
            old(self).wf() ==> {
                &&& r matches Err(e) ==> cannot_go_on(e)
                &&& r is Err && old(self).alone(FrameKind::Tick, Seq::empty(), old(self).stamp(now.0)) ==> final(self).tip()
                    == old(self).tip()
                &&& r is Ok ==> final(self).noted(
                    old(self),
                    FrameKind::Tick,
                    Seq::empty(),
                    now.0,
                )
                &&& old(self).smooth(FrameKind::Tick, Seq::empty(), old(self).stamp(now.0)) ==> r is Ok
                &&& old(self).tip() < u64::MAX ==> final(self).wrote(
                    old(self),
                    old(self).shelving(FrameKind::Tick, Seq::empty(), now.0),
                    r,
                )
            },
            r matches Ok(seq) ==> seq.0 == old(self).tip() + 1,
    {
        let payload: Vec<u8> = Vec::new();
        assert(payload@ =~= Seq::empty());
        self.control_at(FrameKind::Tick, payload, now)
    }

    /// Opens epoch `epoch` at time `now`: sequences the fence that carries it
    /// and this service's input-schema version.
    pub fn fence_at(&mut self, epoch: u64, now: Timestamp) -> (r: Result<SeqNo, NodeError>)
        ensures
            r is Ok ==> final(self).tip() > old(self).tip(),
            final(self).clock() == old(self).clock(),
            final(self).goes_on_from(old(self)),
            old(self).wf() ==> {
                &&& r matches Err(e) ==> cannot_go_on(e)
                &&& r is Err && old(self).alone(
                    FrameKind::EpochChange,
                    fence_payload(
                        EpochChange {
                            epoch,
                            first_seq: SeqNo((old(self).tip() + 1) as u64),
                            schema_version: S::SCHEMA_VERSION,
                        },
                    ),
                    old(self).stamp(now.0),
                ) ==> final(self).tip() == old(self).tip()
                &&& r is Ok ==> final(self).noted(
                    old(self),
                    FrameKind::EpochChange,
                    fence_payload(
                        EpochChange {
                            epoch,
                            first_seq: SeqNo((old(self).tip() + 1) as u64),
                            schema_version: S::SCHEMA_VERSION,
                        },
                    ),
                    now.0,
                )
                &&& old(self).smooth(
                    FrameKind::EpochChange,
                    fence_payload(
                        EpochChange {
                            epoch,
                            first_seq: SeqNo((old(self).tip() + 1) as u64),
                            schema_version: S::SCHEMA_VERSION,
                        },
                    ),
                    old(self).stamp(now.0),
                ) ==> r is Ok
            },
            r matches Ok(seq) ==> seq.0 == old(self).tip() + 1,
    {
        let ghost sound = self.wf();
        proof {
            if sound {
                self.journal.lemma_wf(self.storage.view());
            }
        }
        proof {
            lemma_streamed_nothing(self.waiting(), self.tip());
        }
        if self.seq.0 == u64::MAX {
            return Err(NodeError::Journal(JournalError::SeqExhausted));
        }
        let change = EpochChange {
            epoch,
            first_seq: SeqNo(self.seq.0 + 1),
            schema_version: S::SCHEMA_VERSION,
        };
        proof {
            if sound {
                crate::epoch::law_fence_roundtrip(change);
            }
        }
        let frame = change.to_frame(now, self.stream_id);
        self.control_at(FrameKind::EpochChange, frame.payload, now)
    }

    /// What submitting an input when the clock shows `now` leads to: the
    /// outputs that are free to leave, or nothing where it fails.
    pub open spec fn submitted(
        &self,
        before: &Self,
        payload: Seq<u8>,
        out: Option<Seq<Seq<u8>>>,
        now: u64,
    ) -> bool {
        let time = before.stamp(now);
        let p = advanced::<S>(
            before.rules(),
            before.progress(),
            FrameKind::Input,
            payload,
            time,
        );
        &&& before.clock().reads(self.clock(), now)
        &&& before.wf() ==> {
            &&& out matches Some(outputs) ==> self.moved(before, p, time) && self.released(
                before,
                p,
                outputs,
            )
            &&& out is None && before.alone(FrameKind::Input, payload, time) ==> self.tip()
                == before.tip()
            &&& before.smooth(FrameKind::Input, payload, time) ==> out is Some
        }
    }

    /// What sequencing a frame that is no input leads to when the clock shows
    /// `now`.
    pub open spec fn controlled(
        &self,
        before: &Self,
        kind: FrameKind,
        payload: Seq<u8>,
        done: bool,
        now: u64,
    ) -> bool {
        let time = before.stamp(now);
        &&& before.clock().reads(self.clock(), now)
        &&& before.wf() ==> {
            &&& done ==> self.noted(before, kind, payload, now)
            &&& !done && before.alone(kind, payload, time) ==> self.tip() == before.tip()
            &&& before.smooth(kind, payload, time) ==> done
        }
    }

    /// Sequences, journals and applies one input now.
    pub fn submit(&mut self, input: &S::Input) -> (r: Result<(SeqNo, Vec<S::Output>), NodeError>)
        requires
            input.encodable(),
            input.bytes().len() <= MAX_PAYLOAD_LEN,
        ensures
            r is Ok ==> final(self).tip() > old(self).tip(),
            final(self).goes_on_from(old(self)),
            old(self).wf() ==> (r matches Err(e) ==> cannot_go_on(e)),
            exists|now: u64| #[trigger]
                final(self).submitted(
                    old(self),
                    input.bytes(),
                    freed(r),
                    now,
                ),
            r matches Ok((seq, out)) ==> seq.0 == old(self).tip() + 1 && all_encodable(out@),
    {
        let ghost sound = self.wf();
        let ghost start = *self;
        let now = self.clock.now();
        proof {
            if sound {
                self.lemma_same_but_clock(&start);
                assert(self.stamp(now.0) == start.stamp(now.0));
            }
        }
        let ghost middle = *self;
        let r = self.submit_at(input, now);
        proof {
            assert(start.clock().reads(self.clock(), now.0));
            if sound {
                self.lemma_moved_from(&middle, &start);
            }
            assert(self.submitted(
                &start,
                input.bytes(),
                freed(r),
                now.0,
            ));
        }
        r
    }

    /// Injects a sequenced tick now.
    pub fn tick(&mut self) -> (r: Result<SeqNo, NodeError>)
        ensures
            r is Ok ==> final(self).tip() > old(self).tip(),
            final(self).goes_on_from(old(self)),
            old(self).wf() ==> (r matches Err(e) ==> cannot_go_on(e)),
            exists|now: u64| #[trigger]
                final(self).controlled(
                    old(self),
                    FrameKind::Tick,
                    Seq::empty(),
                    r is Ok,
                    now,
                ),
            r matches Ok(seq) ==> seq.0 == old(self).tip() + 1,
    {
        let ghost sound = self.wf();
        let ghost start = *self;
        let now = self.clock.now();
        proof {
            if sound {
                self.lemma_same_but_clock(&start);
                assert(self.stamp(now.0) == start.stamp(now.0));
            }
        }
        let ghost middle = *self;
        let r = self.tick_at(now);
        proof {
            assert(start.clock().reads(self.clock(), now.0));
            if sound {
                self.lemma_moved_from(&middle, &start);
                if r is Ok {
                    assert(self.noted(&middle, FrameKind::Tick, Seq::empty(), now.0));
                    assert(self.noted(&start, FrameKind::Tick, Seq::empty(), now.0));
                }
            }
            assert(self.controlled(&start, FrameKind::Tick, Seq::empty(), r is Ok, now.0));
        }
        r
    }

    /// Opens epoch `epoch` now.
    pub fn fence(&mut self, epoch: u64) -> (r: Result<SeqNo, NodeError>)
        ensures
            r is Ok ==> final(self).tip() > old(self).tip(),
            final(self).goes_on_from(old(self)),
            old(self).wf() ==> (r matches Err(e) ==> cannot_go_on(e)),
            exists|now: u64| #[trigger]
                final(self).controlled(
                    old(self),
                    FrameKind::EpochChange,
                    fence_payload(
                        EpochChange {
                            epoch,
                            first_seq: SeqNo((old(self).tip() + 1) as u64),
                            schema_version: S::SCHEMA_VERSION,
                        },
                    ),
                    r is Ok,
                    now,
                ),
            r matches Ok(seq) ==> seq.0 == old(self).tip() + 1,
    {
        let ghost sound = self.wf();
        let ghost start = *self;
        let now = self.clock.now();
        proof {
            if sound {
                self.lemma_same_but_clock(&start);
                assert(self.stamp(now.0) == start.stamp(now.0));
            }
        }
        let ghost middle = *self;
        let r = self.fence_at(epoch, now);
        proof {
            let body = fence_payload(
                EpochChange {
                    epoch,
                    first_seq: SeqNo((start.tip() + 1) as u64),
                    schema_version: S::SCHEMA_VERSION,
                },
            );
            assert(start.clock().reads(self.clock(), now.0));
            if sound {
                self.lemma_moved_from(&middle, &start);
                if r is Ok {
                    assert(self.noted(&middle, FrameKind::EpochChange, body, now.0));
                    assert(self.noted(&start, FrameKind::EpochChange, body, now.0));
                }
            }
            assert(self.controlled(&start, FrameKind::EpochChange, body, r is Ok, now.0));
        }
        r
    }

    /// The clock has no part in where a node stands.
    proof fn lemma_same_but_clock(&self, before: &Self)
        requires
            *self == (Node { clock: self.clock, ..*before }),
        ensures
            self.wf() == before.wf(),
            self.ready() == before.ready(),
            forall|len: nat| #[trigger] self.takes(len) == before.takes(len),
            self.faithful() == before.faithful(),
            self.settled() == before.settled(),
            self.same_run(before),
            self.frames() == before.frames(),
            self.reliable() == before.reliable(),
    {
    }

    /// Going on from either of two nodes that differ in their clock is the
    /// same.
    proof fn lemma_moved_from(&self, middle: &Self, before: &Self)
        requires
            *middle == (Node { clock: middle.clock, ..*before }),
        ensures
            forall|p: Progress, time: u64| #[trigger]
                self.moved(middle, p, time) == self.moved(before, p, time),
            forall|p: Progress, out: Seq<Seq<u8>>| #[trigger]
                self.released(middle, p, out) == self.released(before, p, out),
            forall|kind: FrameKind, payload: Seq<u8>, now: u64| #[trigger]
                self.noted(middle, kind, payload, now) == self.noted(before, kind, payload, now),
            forall|kind: FrameKind, payload: Seq<u8>, time: u64| #[trigger]
                middle.smooth(kind, payload, time) == before.smooth(kind, payload, time),
            forall|kind: FrameKind, payload: Seq<u8>, time: u64| #[trigger]
                middle.alone(kind, payload, time) == before.alone(kind, payload, time),
    {
        middle.lemma_same_but_clock(before);
        assert(self.remembers(middle) == self.remembers(before)) by {
            if self.remembers(middle) {
                assert forall|k: u64|
                    k <= before.tip() && #[trigger] before.history().contains_key(
                        k,
                    ) implies self.history().contains_key(k) && self.history()[k]
                    == before.history()[k] by {
                    assert(middle.history().contains_key(k));
                }
            }
            if self.remembers(before) {
                assert forall|k: u64|
                    k <= middle.tip() && #[trigger] middle.history().contains_key(
                        k,
                    ) implies self.history().contains_key(k) && self.history()[k]
                    == middle.history()[k] by {
                    assert(before.history().contains_key(k));
                }
            }
        }
    }

    /// What an acknowledgement releases: whatever a majority now holds, in
    /// order, the rest being held back.
    pub open spec fn heard(&self, before: &Self, replica: u32, seq: u64, freed: Held) -> bool {
        match before.quorum() {
            None => freed.len() == 0 && self.quorum() is None,
            Some(q) => {
                let all = q.acked(replica, seq);
                exists|w: u64| #[trigger]
                    all.commits(w) && freed == all.pending.take(ripe(all.pending, w) as int)
                        && self.quorum() == Some(all.released(ripe(all.pending, w)))
            },
        }
    }

    /// Records that `replica` has journaled everything up to `seq`, and
    /// returns what that releases, in order.
    pub fn record_ack(&mut self, replica: u32, seq: SeqNo) -> (r: Vec<(SeqNo, Vec<S::Output>)>)
        ensures
            final(self).heard(old(self), replica, seq.0, held_outputs(r@)),
            final(self).clock() == old(self).clock(),
            old(self).wf() ==> final(self).still(old(self)),
    {
        let ghost sound = self.wf();
        let ghost start = *self;
        let mut freed: Vec<(SeqNo, Vec<S::Output>)> = Vec::new();
        if let Some(q) = &mut self.quorum {
            q.ack(replica, seq);
            freed = q.release();
        }
        proof {
            if sound {
                self.lemma_same_but_quorum(&start);
            }
            if let Some(q) = start.quorum() {
                let all = q.acked(replica, seq.0);
                let w = choose|w: u64|
                    {
                        let k = ripe(all.pending, w);
                        &&& #[trigger] all.commits(w)
                        &&& held_outputs(freed@) == all.pending.take(k as int)
                        &&& self.quorum()->0 == all.released(k)
                    };
                assert(all.commits(w));
            }
        }
        freed
    }

    /// Everything up to here is committed.
    pub fn commit_watermark(&self) -> (r: SeqNo)
        ensures
            match self.quorum() {
                None => r.0 == self.tip(),
                Some(q) => q.commits(r.0),
            },
    {
        match &self.quorum {
            None => self.seq,
            Some(q) => q.watermark(),
        }
    }

    /// How many inputs' outputs are held back.
    pub fn pending_commit_count(&self) -> (r: usize)
        ensures
            r == match self.quorum() {
                None => 0,
                Some(q) => q.pending.len(),
            },
    {
        match &self.quorum {
            None => 0,
            Some(q) => q.pending_count(),
        }
    }

    /// How many timers are armed.
    pub fn pending_timer_count(&self) -> (r: usize)
        ensures
            r == self.machine().wheel.len(),
    {
        self.wheel.len()
    }
}

/// An append to the journal leaves the snapshots alone.
proof fn lemma_appended_snapshots(before: DiskModel, after: DiskModel, dir: Seq<u8>)
    requires
        forall|p: Seq<u8>| #[trigger] before.has(p) ==> after.has(p),
        forall|p: Seq<u8>| #[trigger]
            before.has(p) && !crate::paths::has_extension(p, crate::paths::seg_ext())
                ==> after.files[p].content() == before.files[p].content(),
        forall|p: Seq<u8>| #[trigger]
            after.has(p) && !before.has(p) ==> crate::paths::is_child(p, dir)
                && crate::paths::has_extension(p, crate::paths::seg_ext()),
    ensures
        crate::recovery::same_snapshots(before, after, dir),
{
    assert forall|p: Seq<u8>| #[trigger] is_snapshot(after, dir, p) implies is_snapshot(
        before,
        dir,
        p,
    ) && after.files[p].content() == before.files[p].content() by {
        crate::recovery::lemma_extensions_differ(p);
        assert(after.has(p));
        assert(before.has(p));
    }
    assert forall|p: Seq<u8>| #[trigger] is_snapshot(before, dir, p) implies is_snapshot(
        after,
        dir,
        p,
    ) by {
        assert(before.has(p));
    }
}

/// `frames` carry the seqs behind `from` up to `to`, without a gap.
#[verifier::opaque]
pub open spec fn run_of(frames: Seq<Record>, from: u64, to: u64) -> bool {
    &&& to == from + frames.len()
    &&& forall|i: int|
        0 <= i < frames.len() ==> (#[trigger] frames[i]).seq == from + 1 + i && frames[i].valid()
}

/// Behind seq `from`, frames up to seq `to` went to the subscribers, without a
/// gap.
#[verifier::opaque]
pub open spec fn streamed(
    before: Seq<Seq<Record>>,
    from: u64,
    after: Seq<Seq<Record>>,
    to: u64,
) -> bool {
    exists|frames: Seq<Record>| #[trigger]
        run_of(frames, from, to) && after == published_all(before, frames)
}

proof fn lemma_streamed_nothing(waiting: Seq<Seq<Record>>, at: u64)
    ensures
        streamed(waiting, at, waiting, at),
{
    reveal(streamed);
    reveal(run_of);
    let none = Seq::<Record>::empty();
    assert(run_of(none, at, at));
    crate::bus::lemma_published(
        waiting,
        none,
        Record { seq: 0, time: 0, stream_id: 0, kind: FrameKind::Tick, payload: Seq::empty() },
    );
}

proof fn lemma_streamed_one(waiting: Seq<Seq<Record>>, from: u64, f: Record)
    requires
        f.seq == from + 1,
        f.valid(),
    ensures
        streamed(waiting, from, published(waiting, f), f.seq),
{
    reveal(streamed);
    lemma_run_of_one(f, from);
    crate::bus::lemma_published(waiting, Seq::empty(), f);
    assert(Seq::<Record>::empty().push(f) =~= seq![f]);
}

proof fn lemma_streamed_on(
    before: Seq<Seq<Record>>,
    from: u64,
    middle: Seq<Seq<Record>>,
    at: u64,
    after: Seq<Seq<Record>>,
    to: u64,
)
    requires
        streamed(before, from, middle, at),
        streamed(middle, at, after, to),
    ensures
        streamed(before, from, after, to),
        from <= at <= to,
{
    reveal(streamed);
    reveal(run_of);
    let a = choose|frames: Seq<Record>| #[trigger]
        run_of(frames, from, at) && middle == published_all(before, frames);
    let b = choose|frames: Seq<Record>| #[trigger]
        run_of(frames, at, to) && after == published_all(middle, frames);
    lemma_runs_join(a, b, from, at, to);
    crate::bus::lemma_published_in_parts(before, a, b);
    assert(run_of(a + b, from, to));
}

proof fn lemma_run_of_one(f: Record, from: u64)
    requires
        f.seq == from + 1,
        f.valid(),
    ensures
        run_of(seq![f], from, f.seq),
{
    reveal(run_of);
}

pub proof fn lemma_runs_join(a: Seq<Record>, b: Seq<Record>, from: u64, mid: u64, to: u64)
    requires
        run_of(a, from, mid),
        run_of(b, mid, to),
    ensures
        run_of(a + b, from, to),
{
    reveal(run_of);
    let all = a + b;
    assert forall|i: int| 0 <= i < all.len() implies (#[trigger] all[i]).seq == from + 1 + i
        && all[i].valid() by {
        if i >= a.len() {
            assert(all[i] == b[i - a.len()]);
        } else {
            assert(all[i] == a[i]);
        }
    }
}


/// The snapshot of a machine at `seq`.
pub open spec fn machine_snapshot(seq: u64, m: Machine) -> crate::snapshot::SnapshotModel {
    crate::snapshot::SnapshotModel { seq, epoch: 0, payload: machine_bytes(m) }
}

/// Whether a machine's snapshot fits a snapshot file.
pub open spec fn fits(m: Machine) -> bool {
    &&& crate::timer::wheel_list(m.wheel).len() <= u32::MAX
    &&& machine_bytes(m).len() <= u32::MAX
}

/// `now` is the end of `all`.
pub open spec fn kept_end(now: Seq<Record>, all: Seq<Record>) -> bool {
    &&& now.len() <= all.len()
    &&& now == all.skip(all.len() - now.len())
}

/// A usable snapshot for `at` is there under its name.
pub open spec fn holds_snapshot(disk: DiskModel, dir: Seq<u8>, at: u64) -> bool {
    let path = crate::paths::numbered(dir, at, crate::paths::snap_ext());
    &&& is_snapshot(disk, dir, path)
    &&& crate::snapshot::read_snapshot(disk.files[path].content()) matches Some(s) && s.seq == at
}

/// What pruning deletes are snapshot files.
proof fn lemma_pruned(disk: DiskModel, after: DiskModel, dir: Seq<u8>, keep: nat)
    requires
        ({
            let files = crate::snapshot::snapshot_files(disk, dir);
            let ours = crate::snapshot::numbered_files(files, dir);
            &&& crate::paths::is_listing(
                files,
                crate::listing::wanted(disk, dir, crate::paths::snap_ext()),
            )
            &&& after == crate::journal::without_first(
                disk,
                ours,
                crate::snapshot::surplus(ours.len(), keep),
            )
        }),
    ensures
        after.epoch == disk.epoch,
        forall|p: Seq<u8>| #[trigger]
            after.has(p) ==> disk.has(p) && after.files[p] == disk.files[p],
        forall|p: Seq<u8>|
            disk.has(p) && !is_snapshot(disk, dir, p) ==> #[trigger] after.has(p),
        crate::journal::same_segments(disk, after, dir),
{
    let files = crate::snapshot::snapshot_files(disk, dir);
    let ours = crate::snapshot::numbered_files(files, dir);
    let cut = crate::snapshot::surplus(ours.len(), keep);
    crate::journal::lemma_without_first(disk, ours, cut);
    assert forall|p: Seq<u8>| ours.take(cut as int).contains(p) implies is_snapshot(
        disk,
        dir,
        p,
    ) by {
        let i = choose|i: int| 0 <= i < ours.take(cut as int).len() && ours.take(cut as int)[i] == p;
        assert(ours[i] == p);
        files.lemma_filter_contains_rev(|q: Seq<u8>| snap_number(q, dir) is Some, p);
        assert(crate::listing::wanted(disk, dir, crate::paths::snap_ext())(p));
    }
    assert forall|p: Seq<u8>|
        crate::paths::has_extension(p, crate::paths::seg_ext()) implies (#[trigger] after.has(p)
        == disk.has(p)) && (disk.has(p) ==> after.files[p] == disk.files[p]) by {
        crate::recovery::lemma_extensions_differ(p);
        assert(crate::journal::without_first(disk, ours, cut).has(p) <==> disk.has(p)
            && !ours.take(cut as int).contains(p));
        if ours.take(cut as int).contains(p) {
            assert(is_snapshot(disk, dir, p));
        }
    }
    crate::recovery::lemma_segments_untouched(disk, after, dir);
}

/// A compaction leaves the snapshots alone.
proof fn lemma_compacted(before: DiskModel, after: DiskModel, dir: Seq<u8>)
    requires
        crate::paths::is_listing(
            crate::journal::segments(before, dir),
            crate::listing::wanted(before, dir, crate::paths::seg_ext()),
        ),
        forall|p: Seq<u8>| #[trigger]
            after.has(p) ==> before.has(p) && after.files[p] == before.files[p],
        forall|p: Seq<u8>|
            before.has(p) && !crate::journal::segments(before, dir).contains(p)
                ==> #[trigger] after.has(p),
    ensures
        crate::recovery::same_snapshots(before, after, dir),
        forall|p: Seq<u8>| #[trigger]
            is_snapshot(before, dir, p) ==> after.has(p) && after.files[p] == before.files[p],
{
    let segs = crate::journal::segments(before, dir);
    assert forall|p: Seq<u8>| #[trigger] is_snapshot(before, dir, p) implies after.has(p)
        && after.files[p] == before.files[p] by {
        crate::recovery::lemma_extensions_differ(p);
        if segs.contains(p) {
            let i = choose|i: int| 0 <= i < segs.len() && segs[i] == p;
            assert(crate::listing::wanted(before, dir, crate::paths::seg_ext())(segs[i]));
        }
    }
    assert forall|p: Seq<u8>| #[trigger] is_snapshot(after, dir, p) implies is_snapshot(
        before,
        dir,
        p,
    ) && after.files[p].content() == before.files[p].content() by {
        assert(after.has(p));
    }
}

spec fn ordered(paths: Seq<Seq<u8>>) -> bool {
    forall|i: int, j: int|
        0 <= i < j < paths.len() ==> #[trigger] crate::paths::sorts_before(paths[i], paths[j])
}

/// Leaving files out keeps the rest in order.
proof fn lemma_filter_ordered(paths: Seq<Seq<u8>>, dir: Seq<u8>)
    requires
        ordered(paths),
    ensures
        ordered(crate::snapshot::numbered_files(paths, dir)),
    decreases paths.len(),
{
    let pred = |q: Seq<u8>| snap_number(q, dir) is Some;
    reveal(Seq::filter);
    if paths.len() > 0 {
        let rest = paths.drop_last();
        let kept = rest.filter(pred);
        assert(ordered(rest)) by {
            assert forall|i: int, j: int| 0 <= i < j < rest.len() implies
                #[trigger] crate::paths::sorts_before(rest[i], rest[j]) by {
                assert(crate::paths::sorts_before(paths[i], paths[j]));
            }
        }
        lemma_filter_ordered(rest, dir);
        assert(crate::snapshot::numbered_files(rest, dir) == kept);
        if pred(paths.last()) {
            assert forall|i: int, j: int| 0 <= i < j < kept.push(paths.last()).len() implies
                #[trigger] crate::paths::sorts_before(
                kept.push(paths.last())[i],
                kept.push(paths.last())[j],
            ) by {
                if j == kept.len() {
                    assert(kept.contains(kept[i]));
                    rest.lemma_filter_contains_rev(pred, kept[i]);
                    let k = choose|k: int| 0 <= k < rest.len() && rest[k] == kept[i];
                    assert(crate::paths::sorts_before(paths[k], paths[paths.len() - 1]));
                } else {
                    assert(crate::paths::sorts_before(kept[i], kept[j]));
                }
            }
        }
    }
}

/// Among the numbered snapshot files, the one for `at` is the last and none
/// is for a later seq.
proof fn lemma_newest_is_last(disk: DiskModel, dir: Seq<u8>, at: u64)
    requires
        crate::recovery::snapshots_listed(disk, dir),
        holds_snapshot(disk, dir, at),
        tidy(disk, dir, at),
    ensures
        ({
            let files = crate::snapshot::snapshot_files(disk, dir);
            let ours = crate::snapshot::numbered_files(files, dir);
            &&& ours.len() > 0
            &&& ours.last() == crate::paths::numbered(dir, at, crate::paths::snap_ext())
            &&& ordered(ours)
            &&& forall|i: int|
                0 <= i < ours.len() ==> (snap_number(#[trigger] ours[i], dir) matches Some(n)
                    && n <= at)
        }),
{
    let ext = crate::paths::snap_ext();
    let path = crate::paths::numbered(dir, at, ext);
    let files = crate::snapshot::snapshot_files(disk, dir);
    let ours = crate::snapshot::numbered_files(files, dir);
    let pred = |q: Seq<u8>| snap_number(q, dir) is Some;
    lemma_filter_ordered(files, dir);
    crate::paths::lemma_numbered(dir, at, ext);
    assert(crate::listing::wanted(disk, dir, ext)(path));
    let k = choose|k: int| 0 <= k < files.len() && files[k] == path;
    assert(pred(files[k]));
    files.lemma_filter_contains(pred, k);
    assert(ours.contains(path));
    let m = choose|m: int| 0 <= m < ours.len() && ours[m] == path;
    assert forall|i: int| 0 <= i < ours.len() implies (snap_number(#[trigger] ours[i], dir) matches Some(
        n,
    ) && n <= at && ours[i] == crate::paths::numbered(dir, n, ext)) by {
        assert(ours.contains(ours[i]));
        files.lemma_filter_contains_rev(pred, ours[i]);
        files.lemma_filter_pred(pred, i);
        let j = choose|j: int| 0 <= j < files.len() && files[j] == ours[i];
        assert(crate::listing::wanted(disk, dir, ext)(files[j]));
        assert(is_snapshot(disk, dir, ours[i]));
    }
    let last = ours.len() - 1;
    if m < last {
        assert(crate::paths::sorts_before(ours[m], ours[last]));
        let n = snap_number(ours[last], dir)->0;
        if n < at {
            crate::paths::lemma_numbered_sorts(dir, n, at, ext);
            crate::paths::lemma_sorts_transitive(ours[m], ours[last], ours[m]);
        }
        crate::paths::lemma_sorts_irreflexive(ours[m]);
    }
}

/// Pruning that keeps any snapshot keeps the newest.
proof fn lemma_newest_stays(disk: DiskModel, after: DiskModel, dir: Seq<u8>, keep: nat, at: u64)
    requires
        crate::recovery::snapshots_listed(disk, dir),
        holds_snapshot(disk, dir, at),
        tidy(disk, dir, at),
        keep > 0,
        ({
            let files = crate::snapshot::snapshot_files(disk, dir);
            let ours = crate::snapshot::numbered_files(files, dir);
            after == crate::journal::without_first(
                disk,
                ours,
                crate::snapshot::surplus(ours.len(), keep),
            )
        }),
    ensures
        holds_snapshot(after, dir, at),
{
    let files = crate::snapshot::snapshot_files(disk, dir);
    let ours = crate::snapshot::numbered_files(files, dir);
    let cut = crate::snapshot::surplus(ours.len(), keep);
    let path = crate::paths::numbered(dir, at, crate::paths::snap_ext());
    lemma_newest_is_last(disk, dir, at);
    crate::journal::lemma_without_first(disk, ours, cut);
    if ours.take(cut as int).contains(path) {
        let i = choose|i: int|
            0 <= i < ours.take(cut as int).len() && ours.take(cut as int)[i] == path;
        assert(ours[i] == path);
        assert(crate::paths::sorts_before(ours[i], ours[ours.len() - 1]));
        crate::paths::lemma_sorts_irreflexive(path);
    }
}

/// The oldest snapshot that pruning keeps is not for a seq behind `at`.
proof fn lemma_kept_numbers(disk: DiskModel, dir: Seq<u8>, keep: nat, at: u64)
    requires
        crate::recovery::snapshots_listed(disk, dir),
        holds_snapshot(disk, dir, at),
        tidy(disk, dir, at),
        keep > 0,
    ensures
        ({
            let files = crate::snapshot::snapshot_files(disk, dir);
            let ours = crate::snapshot::numbered_files(files, dir);
            let cut = crate::snapshot::surplus(ours.len(), keep) as int;
            cut < ours.len() && (snap_number(ours[cut], dir) matches Some(n) && n <= at)
        }),
{
    lemma_newest_is_last(disk, dir, at);
}

/// Seqs last for a frame and for the timers that it makes fire, and snapshots
/// that come due fit their files.
pub open spec fn runs_on<S: Service>(
    rules: Rules<S::Config>,
    p: Progress,
    kind: FrameKind,
    payload: Seq<u8>,
    time: u64,
) -> bool {
    &&& p.seq + 2 < u64::MAX
    &&& snapshot_due(rules.every, (p.seq + 1) as u64) ==> fits(
        executed::<S>(rules, p, kind, payload, time).machine,
    )
    &&& smooth_from::<S>(rules, sequenced::<S>(rules, p, kind, payload, time), time)
}

/// Every timer that is due can be fired.
pub open spec fn smooth_from<S: Service>(rules: Rules<S::Config>, p: Progress, time: u64) -> bool
    decreases u64::MAX - p.seq,
{
    match next_due(p.machine.wheel, time) {
        None => true,
        Some(id) => {
            &&& p.seq + 2 < u64::MAX
            &&& snapshot_due(rules.every, (p.seq + 1) as u64) ==> fits(
                executed::<S>(rules, p, FrameKind::TimerFired, id.bytes(), time).machine,
            )
            &&& smooth_from::<S>(
                rules,
                sequenced::<S>(rules, p, FrameKind::TimerFired, id.bytes(), time),
                time,
            )
        },
    }
}

/// The payload of a timer frame reads back as the timer's id.
proof fn lemma_fired_id(id: u64)
    ensures
        crate::machine::fired_id(id.bytes()) == Ok::<u64, CodecError>(id),
        id.bytes().len() == 8,
{
    crate::codec::law_encoding_is_accepted(id);
    crate::le::lemma_pow256_values();
    crate::le::law_le_value_of_bytes(id as nat, 8);
}

/// What a frame leads to does not depend on what came on the way to it.
proof fn lemma_sequenced_behind<S: Service>(
    rules: Rules<S::Config>,
    p: Progress,
    kind: FrameKind,
    payload: Seq<u8>,
    time: u64,
)
    ensures
        ({
            let fresh = Progress { frames: Seq::empty(), outputs: Seq::empty(), ..p };
            let q = sequenced::<S>(rules, fresh, kind, payload, time);
            sequenced::<S>(rules, p, kind, payload, time) == (Progress {
                machine: q.machine,
                seq: q.seq,
                frames: p.frames + q.frames,
                outputs: p.outputs + q.outputs,
            })
        }),
{
    let fresh = Progress { frames: Seq::empty(), outputs: Seq::empty(), ..p };
    let q = sequenced::<S>(rules, fresh, kind, payload, time);
    let whole = sequenced::<S>(rules, p, kind, payload, time);
    assert(whole.frames =~= p.frames + q.frames);
    assert(whole.outputs =~= p.outputs + q.outputs);
}

} // verus!
