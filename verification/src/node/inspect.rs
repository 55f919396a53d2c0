//! Looking at a running node, syncing it, and what survives power loss.

use vstd::prelude::*;

use crate::codec::{CodecError, Encode};
use crate::durability::durable_frames;
use crate::frame::{Frame, Record};
use crate::journal::{held, records, recover, segments, Journal};
use crate::machine::{genesis_machine, Machine};
use crate::node::startup::{replay_frames, tidy_names};
use crate::node::{Node, NodeConfig, NodeError, Progress, RecoveryInfo, TimeSource};
use crate::recovery::{covered, first_seq, replay_after, snapshots_listed, tells};
use crate::seq::SeqNo;
use crate::service::Service;
use crate::sim_storage::survives;
use crate::storage::{Disk, DiskModel, Storage};
use crate::timer::TimerWheel;

verus! {

impl<S: Service, T: TimeSource, St: Storage> Node<S, T, St> {
    pub closed spec fn running(&self) -> S {
        self.service
    }

    /// The seq of the last sequenced frame (0 if there is none).
    pub fn seq(&self) -> (r: SeqNo)
        ensures
            r.0 == self.tip(),
    {
        self.seq
    }

    /// Read-only access to the service. State is a projection of the journal;
    /// there is no mutable access outside [`Service::apply`].
    pub fn service(&self) -> (r: &S)
        ensures
            *r == self.running(),
            r.state() == self.machine().state,
            self.wf() ==> r.config() == self.rules().config,
    {
        &self.service
    }

    /// How opening rebuilt state.
    pub fn recovery_info(&self) -> (r: RecoveryInfo)
        ensures
            r == self.how_opened(),
    {
        self.recovery
    }

    /// The clock, for advancing one that is advanced by hand.
    pub fn clock_mut(&mut self) -> (r: &mut T)
        ensures
            old(self).wf() ==> final(self).wf(),
            final(self).still(old(self)),
            final(self).quorum() == old(self).quorum(),
            *r == old(self).clock(),
            final(self).clock() == *final(r),
    {
        &mut self.clock
    }

    /// Subscribes to the sequenced stream: all frames from now on. Returns the
    /// number to drain the queue by.
    pub fn subscribe(&mut self) -> (r: usize)
        ensures
            r == old(self).waiting().len(),
            final(self).waiting() == old(self).waiting().push(Seq::empty()),
            final(self).unmoved(old(self)),
            final(self).quorum() == old(self).quorum(),
            final(self).clock() == old(self).clock(),
    {
        self.bus.subscribe()
    }

    /// Takes the frames that wait for a subscriber.
    pub fn drain(&mut self, subscriber: usize) -> (r: Vec<Frame>)
        ensures
            subscriber < old(self).waiting().len() ==> records(r@) == old(
                self,
            ).waiting()[subscriber as int] && final(self).waiting() == old(self).waiting().update(
                subscriber as int,
                Seq::empty(),
            ),
            subscriber >= old(self).waiting().len() ==> r@.len() == 0 && final(self).waiting()
                == old(self).waiting(),
            final(self).unmoved(old(self)),
            final(self).quorum() == old(self).quorum(),
            final(self).clock() == old(self).clock(),
    {
        self.bus.drain(subscriber)
    }

    /// Lets a subscriber leave. Those that came after it move up by one number.
    pub fn unsubscribe(&mut self, subscriber: usize)
        ensures
            final(self).waiting() == (if subscriber < old(self).waiting().len() {
                old(self).waiting().remove(subscriber as int)
            } else {
                old(self).waiting()
            }),
            final(self).unmoved(old(self)),
            final(self).quorum() == old(self).quorum(),
            final(self).clock() == old(self).clock(),
    {
        self.bus.unsubscribe(subscriber)
    }

    /// The disk the node runs on.
    pub fn storage(&self) -> (r: &St)
        ensures
            r.view() == self.disk(),
            r.reliable() == self.reliable(),
    {
        &self.storage
    }

    /// Stops the node cleanly and hands back its disk: what it journaled is
    /// forced to stable storage first.
    pub fn close(self) -> (r: (St, Result<(), NodeError>))
        ensures
            self.wf() ==> {
                &&& crate::journal::well_kept(r.0.view(), self.dir())
                &&& crate::journal::held(r.0.view(), self.dir()) == crate::journal::held(
                    self.disk(),
                    self.dir(),
                )
                &&& r.1 is Ok ==> r.0.view() == crate::journal::flushed_end(
                    self.disk(),
                    self.dir(),
                    self.pending(),
                )
                &&& r.1 is Ok && self.settled() ==> crate::journal::all_synced(
                    r.0.view(),
                    self.dir(),
                )
                &&& self.reliable() ==> r.1 is Ok
            },
            r.0.reliable() == self.reliable(),
    {
        let mut storage = self.storage;
        match self.journal.close(&mut storage) {
            Ok(()) => (storage, Ok(())),
            Err(e) => (storage, Err(NodeError::Journal(e))),
        }
    }

    /// Stops the node where it stands and hands back its disk, without a sync.
    pub fn into_storage(self) -> (r: St)
        ensures
            r.view() == self.disk(),
            r.reliable() == self.reliable(),
    {
        self.storage
    }

    /// The number of journal segments on disk.
    pub fn journal_segments(&self) -> (r: usize)
        ensures
            self.reliable() ==> r == segments(self.disk(), self.dir()).len(),
    {
        self.journal.segment_count(&self.storage)
    }

    /// The seq of the newest usable snapshot up to the tip, if there is one.
    pub fn latest_snapshot_seq(&self) -> (r: Option<SeqNo>)
        ensures
            self.wf() && self.reliable() ==> {
                let all = crate::snapshot::candidates(self.disk(), self.dir(), self.tip());
                match r {
                    Some(s) => all.len() > 0 && s.0 == all[0].seq,
                    None => all.len() == 0,
                }
            },
    {
        match self.snapshots.load_latest(&self.storage, self.seq) {
            Ok(Some(s)) => Some(s.seq),
            _ => None,
        }
    }

    /// Forces the journal to stable storage.
    pub fn sync(&mut self) -> (r: Result<(), NodeError>)
        ensures
            old(self).wf() ==> {
                &&& final(self).wf()
                &&& final(self).same_run(old(self))
                &&& final(self).frames() == old(self).frames()
                &&& old(self).settled() ==> final(self).settled()
                &&& old(self).faithful() ==> final(self).faithful()
                &&& old(self).ready() ==> final(self).ready()
                &&& forall|len: nat| #[trigger] final(self).takes(len) == old(self).takes(len)
                &&& final(self).bare() == old(self).bare()
                &&& old(self).reliable() ==> r is Ok
                &&& r is Ok ==> final(self).disk() == crate::journal::flushed_end(
                    old(self).disk(),
                    old(self).dir(),
                    old(self).pending(),
                )
            },
            final(self).clock() == old(self).clock(),
            r is Ok ==> !final(self).pending(),
    {
        let ghost sound = self.wf();
        let ghost before = *self;
        let ghost disk = self.storage.view();
        let ghost dir = self.journal.dir();
        let done = self.journal.sync(&mut self.storage);
        proof {
            if sound {
                let now = self.storage.view();
                before.journal.lemma_wf(disk);
                self.journal.lemma_wf(now);
                assert forall|p: Seq<u8>| now.has(p) == disk.has(p) by {
                    assert(now.files.dom().contains(p) == disk.files.dom().contains(p));
                }
                assert forall|p: Seq<u8>| #[trigger]
                    crate::recovery::is_snapshot(now, dir, p) implies crate::recovery::is_snapshot(
                    disk,
                    dir,
                    p,
                ) && now.files[p] == disk.files[p] by {
                    crate::recovery::lemma_extensions_differ(p);
                    assert(disk.has(p));
                }
                assert forall|p: Seq<u8>| #[trigger]
                    crate::recovery::is_snapshot(disk, dir, p) implies crate::recovery::is_snapshot(
                    now,
                    dir,
                    p,
                ) by {
                    assert(disk.has(p));
                }
                if before.faithful() {
                    crate::recovery::lemma_same_history::<S>(
                        self.service_config,
                        self.past@,
                        disk,
                        now,
                        dir,
                    );
                }
                assert(before.disk() == disk && before.dir() == dir);
                assert(self.disk() == now && self.dir() == dir);
                assert(self.bare() == before.bare()) by {
                    if before.bare() {
                        assert forall|p: Seq<u8>| !#[trigger] crate::recovery::is_snapshot(
                            now,
                            dir,
                            p,
                        ) by {
                            assert(!crate::recovery::is_snapshot(disk, dir, p));
                        }
                    }
                    if self.bare() {
                        assert forall|p: Seq<u8>| !#[trigger] crate::recovery::is_snapshot(
                            disk,
                            dir,
                            p,
                        ) by {
                            assert(!crate::recovery::is_snapshot(now, dir, p));
                        }
                    }
                }
                assert(self.same_run(&before));
            }
        }
        match done {
            Ok(()) => Ok(()),
            Err(e) => Err(NodeError::Journal(e)),
        }
    }

    /// The replay-equivalence check: runs genesis and the whole journal in a
    /// fresh service and compares its snapshot with the live one, byte by
    /// byte.
    pub fn verify_replay(&mut self) -> (r: Result<bool, NodeError>)
        ensures
            old(self).wf() ==> (r matches Ok(same) ==> {
                let replayed = replay_after::<S>(
                    old(self).rules().config,
                    genesis_machine::<S>(old(self).rules().config),
                    old(self).frames(),
                    0,
                );
                &&& replayed is Ok
                &&& same == (replayed->Ok_0.state == old(self).machine().state)
                &&& final(self).wf()
                &&& final(self).same_run(old(self))
                &&& final(self).frames() == old(self).frames()
                &&& old(self).faithful() ==> final(self).faithful()
                &&& old(self).faithful() && first_seq(held(old(self).disk(), old(self).dir())) == 1
                    ==> same
            }),
            old(self).wf() && old(self).reliable() && old(self).faithful() && first_seq(
                held(old(self).disk(), old(self).dir()),
            ) == 1 ==> r == Ok::<bool, NodeError>(true),
            old(self).wf() && old(self).reliable() ==> (r is Ok <==> replay_after::<S>(
                old(self).rules().config,
                genesis_machine::<S>(old(self).rules().config),
                old(self).frames(),
                0,
            ) is Ok),
    {
        let ghost sound = self.wf();
        let ghost start = *self;
        proof {
            if sound && start.faithful() && first_seq(held(start.disk(), start.dir())) == 1 {
                law_replay_rebuilds_the_live_machine(start);
            }
        }
        self.sync()?;
        let ghost synced = *self;
        let ghost disk = self.storage.view();
        let ghost dir = self.journal.dir();
        proof {
            if sound {
                start.journal.lemma_wf(start.storage.view());
                self.journal.lemma_wf(disk);
            }
        }
        let recovered = match Journal::open_with(
            self.journal_config.clone(),
            &mut self.storage,
        ) {
            Ok(rec) => rec,
            Err(e) => {
                return Err(NodeError::Journal(e));
            },
        };
        assert(sound ==> self.storage.view() == disk);
        let mut replayed = S::genesis(&self.service_config);
        let mut wheel = TimerWheel::new();
        replay_frames(&mut replayed, &mut wheel, &recovered.frames, SeqNo(0))?;
        let mut live: Vec<u8> = Vec::new();
        let mut fresh: Vec<u8> = Vec::new();
        self.service.snapshot().encode(&mut live);
        replayed.snapshot().encode(&mut fresh);
        assert(live@ =~= self.service.state());
        assert(fresh@ =~= replayed.state());
        let same: bool = crate::paths::same_bytes(live.as_slice(), fresh.as_slice());
        proof {
            if sound {
                self.lemma_same_disk(&synced);
                let frames = held(disk, dir).frames;
                let segs = segments(disk, dir);
                crate::journal::lemma_recover_order(segs, disk.files, segs.len());
            }
        }
        Ok(same)
    }

    /// The journal can be read, and ends at the tip.
    pub proof fn lemma_journal(&self)
        requires
            self.wf(),
        ensures
            recover(self.disk(), self.dir()) is Ok,
            held(self.disk(), self.dir()).next == self.tip() + 1,
            self.frames().len() <= self.tip(),
    {
        self.journal.lemma_wf(self.disk());
    }

    /// Once everything is synced, every frame is durable.
    pub proof fn lemma_synced(&self)
        requires
            self.wf(),
            self.settled(),
            !self.pending(),
        ensures
            self.durable() == self.frames().len(),
    {
        self.journal.lemma_wf(self.disk());
        self.journal.lemma_settled(self.disk());
        crate::durability::lemma_all_durable(self.disk(), self.dir());
    }

    /// A node on the same disk stands where it stood.
    proof fn lemma_same_disk(&self, before: &Self)
        requires
            *self == (Node { storage: self.storage, ..*before }),
            self.disk() == before.disk(),
            self.reliable() == before.reliable(),
        ensures
            self.still(before),
            self.same_run(before),
    {
    }
}

/// Replay equivalence: whenever a node's journal goes back to the beginning,
/// running all of it in a fresh service leads to the live machine.
pub proof fn law_replay_rebuilds_the_live_machine<S: Service, T: TimeSource, St: Storage>(
    node: Node<S, T, St>,
)
    requires
        node.wf(),
        node.faithful(),
        first_seq(held(node.disk(), node.dir())) == 1,
    ensures
        replay_after::<S>(
            node.rules().config,
            genesis_machine::<S>(node.rules().config),
            node.frames(),
            0,
        ) == Ok::<Machine, (u64, CodecError)>(node.machine()),
{
    let disk = node.disk();
    let dir = node.dir();
    node.journal.lemma_wf(disk);
    let frames = held(disk, dir).frames;
    let segs = segments(disk, dir);
    crate::journal::lemma_recover_order(segs, disk.files, segs.len());
    assert forall|i: int| 0 <= i < frames.len() implies (#[trigger] frames[i]).seq == 1 + i by {}
    crate::recovery::lemma_replay_follows::<S>(node.service_config, node.past@, frames, 1, 0);
}

/// A run of nodes: each goes on from the one before it, by what the step at
/// its place sequenced.
pub open spec fn goes_by<S: Service, T: TimeSource, St: Storage>(
    run: Seq<Node<S, T, St>>,
    steps: Seq<(Progress, u64)>,
) -> bool {
    &&& run.len() == steps.len() + 1
    &&& forall|i: int|
        #![trigger steps[i]]
        0 <= i < steps.len() ==> run[i + 1].moved(&run[i], steps[i].0, steps[i].1)
}

/// The frames that the steps sequenced, in order.
pub open spec fn frames_of(steps: Seq<(Progress, u64)>) -> Seq<Record>
    decreases steps.len(),
{
    if steps.len() == 0 {
        Seq::empty()
    } else {
        frames_of(steps.drop_last()) + steps.last().0.frames
    }
}

/// Over a run, with snapshots or without, what reaches a subscriber is what was
/// journaled: one frame for every seq behind the tip, in order, snapshot marks
/// with them, and nothing else. The journal holds the same frames behind what it
/// held; only where snapshots are taken may it have lost some of its oldest.
pub proof fn law_subscriber_gets_what_is_journaled<S: Service, T: TimeSource, St: Storage>(
    run: Seq<Node<S, T, St>>,
    steps: Seq<(Progress, u64)>,
    subscriber: int,
)
    requires
        goes_by(run, steps),
        0 <= subscriber < run[0].waiting().len(),
    ensures
        run.last().rules() == run[0].rules(),
        run.last().waiting().len() == run[0].waiting().len(),
        run.last().waiting()[subscriber] == run[0].waiting()[subscriber] + frames_of(steps),
        crate::node::run_of(frames_of(steps), run[0].tip(), run.last().tip()),
        crate::node::kept_end(run.last().frames(), run[0].frames() + frames_of(steps)),
        run[0].rules().every is None ==> run.last().frames() == run[0].frames() + frames_of(steps),
    decreases steps.len(),
{
    let first = run[0];
    let n = steps.len();
    if n == 0 {
        assert(first.waiting()[subscriber] + Seq::<Record>::empty()
            =~= first.waiting()[subscriber]);
        assert(first.frames() + Seq::<Record>::empty() =~= first.frames());
        assert(first.frames().skip(0) =~= first.frames());
        reveal(crate::node::run_of);
    } else {
        let front = run.drop_last();
        let fewer = steps.drop_last();
        assert forall|i: int|
            #![trigger fewer[i]]
            0 <= i < fewer.len() implies front[i + 1].moved(
            &front[i],
            fewer[i].0,
            fewer[i].1,
        ) by {
            assert(steps[i] == fewer[i]);
        }
        law_subscriber_gets_what_is_journaled(front, fewer, subscriber);
        let mid = front.last();
        let end = run.last();
        let p = steps[n - 1].0;
        let gained = frames_of(fewer);
        let all = first.frames() + frames_of(steps);
        assert(end.moved(&mid, p, steps[n - 1].1));
        assert(end.waiting()[subscriber] == mid.waiting()[subscriber] + p.frames);
        assert(first.waiting()[subscriber] + gained + p.frames =~= first.waiting()[subscriber]
            + frames_of(steps));
        crate::node::lemma_runs_join(gained, p.frames, first.tip(), mid.tip(), end.tip());
        assert(all =~= (first.frames() + gained) + p.frames);
        let held_then = mid.frames() + p.frames;
        assert(held_then =~= all.skip(all.len() - held_then.len()));
        assert(held_then.skip(held_then.len() - end.frames().len()) =~= all.skip(
            all.len() - end.frames().len(),
        ));
    }
}

/// Power loss never costs the ability to recover: the journal reads, and what
/// it holds is a prefix of what the node had appended, with every durable
/// frame in it.
pub proof fn law_node_survives_power_loss<S: Service, T: TimeSource, St: Storage>(
    node: Node<S, T, St>,
    after: DiskModel,
    torn: bool,
)
    requires
        node.wf(),
        node.settled(),
        after.files.dom() == node.disk().files.dom(),
        forall|p: Seq<u8>| #[trigger]
            node.disk().has(p) ==> survives(node.disk().files[p], after.files[p], torn),
    ensures
        crate::journal::names_right(after, node.dir()),
        recover(after, node.dir()) is Ok,
        held(after, node.dir()).frames.len() < held(after, node.dir()).next,
        held(after, node.dir()).frames.len() <= node.frames().len(),
        held(after, node.dir()).frames == node.frames().take(
            held(after, node.dir()).frames.len() as int,
        ),
        durable_frames(node.disk(), node.dir()) <= held(after, node.dir()).frames.len(),
        held(after, node.dir()).next == node.tip() + 1 - (node.frames().len() - held(
            after,
            node.dir(),
        ).frames.len()),
        crate::paths::is_listing(
            segments(after, node.dir()),
            crate::listing::wanted(after, node.dir(), crate::paths::seg_ext()),
        ),
        crate::node::startup::synced_throughout(after, node.dir()),
{
    node.journal.lemma_wf(node.disk());
    node.journal.lemma_settled(node.disk());
    crate::durability::law_crash_keeps_a_durable_prefix(node.disk(), after, node.dir(), torn);
    assert forall|p: Seq<u8>| #[trigger] after.has(p) && crate::paths::is_child(
        p,
        node.dir(),
    ) implies after.files[p].unsynced.len() == 0 by {
        assert(node.disk().files.dom().contains(p));
        assert(node.disk().has(p));
    }
}

/// Power loss leaves a disk that tells of the same history, perhaps of less
/// of it, so that a node opens on it again.
pub proof fn law_history_survives_power_loss<S: Service, T: TimeSource, St: Storage>(
    node: Node<S, T, St>,
    after: DiskModel,
    torn: bool,
)
    requires
        node.wf(),
        node.faithful(),
        node.settled(),
        node.keeps_cover(),
        after.files.dom() == node.disk().files.dom(),
        forall|p: Seq<u8>| #[trigger]
            node.disk().has(p) ==> survives(node.disk().files[p], after.files[p], torn),
    ensures
        tells::<S>(node.rules().config, node.history(), after, node.dir()),
        covered(after, node.dir()),
        tidy_names(after, node.dir()),
{
    node.journal.lemma_wf(node.disk());
    node.journal.lemma_settled(node.disk());
    crate::recovery::law_crash_keeps_history::<S>(
        node.rules().config,
        node.past@,
        node.disk(),
        after,
        node.dir(),
        torn,
    );
    assert forall|p: Seq<u8>| #[trigger] crate::recovery::is_snapshot(
        after,
        node.dir(),
        p,
    ) implies crate::recovery::is_snapshot(node.disk(), node.dir(), p) by {
        assert(after.files.dom().contains(p));
        assert(node.disk().files.dom().contains(p));
    }
}

/// A reopened node agrees with the one that lost power: whatever part of the
/// journal came through, it is the machine that the first node was at that
/// seq, and no durable frame is missing.
pub proof fn law_reopened_node_agrees<S: Service, T: TimeSource, St: Storage>(
    node: Node<S, T, St>,
    after: DiskModel,
    torn: bool,
    reopened: Node<S, T, St>,
    config: NodeConfig,
    from: Option<(u64, Machine)>,
)
    requires
        node.wf(),
        node.faithful(),
        node.settled(),
        node.keeps_cover(),
        after.files.dom() == node.disk().files.dom(),
        forall|p: Seq<u8>| #[trigger]
            node.disk().has(p) ==> survives(node.disk().files[p], after.files[p], torn),
        config.journal.dir@ == node.dir(),
        snapshots_listed(crate::node::startup::mended(after, node.dir()), node.dir()),
        reopened.opened(config, node.rules().config, after, from),
    ensures
        tells::<S>(node.rules().config, node.history(), after, node.dir()),
        covered(after, node.dir()),
        node.history().contains_key(reopened.tip()),
        reopened.machine() == node.history()[reopened.tip()],
        reopened.tip() >= first_seq(held(node.disk(), node.dir())) + durable_frames(
            node.disk(),
            node.dir(),
        ) - 1,
{
    let cfg = node.rules().config;
    let dir = node.dir();
    let disk = node.disk();
    node.journal.lemma_wf(disk);
    node.journal.lemma_settled(disk);
    crate::recovery::law_crash_keeps_history::<S>(cfg, node.past@, disk, after, dir, torn);
    crate::durability::law_crash_keeps_a_durable_prefix(disk, after, dir, torn);
    crate::node::startup::lemma_mended(after, dir);
    let d = crate::node::startup::mended(after, dir);
    crate::recovery::lemma_same_history::<S>(cfg, node.past@, after, d, dir);
    crate::recovery::law_recovery_rebuilds_the_machine::<S>(cfg, node.past@, d, dir, from);
}

/// Once everything is synced, power loss costs nothing: the reopened node is
/// where the first one was.
pub proof fn law_synced_node_survives_whole<S: Service, T: TimeSource, St: Storage>(
    node: Node<S, T, St>,
    after: DiskModel,
    torn: bool,
    reopened: Node<S, T, St>,
    config: NodeConfig,
    from: Option<(u64, Machine)>,
)
    requires
        node.wf(),
        node.faithful(),
        node.settled(),
        !node.pending(),
        node.keeps_cover(),
        after.files.dom() == node.disk().files.dom(),
        forall|p: Seq<u8>| #[trigger]
            node.disk().has(p) ==> survives(node.disk().files[p], after.files[p], torn),
        config.journal.dir@ == node.dir(),
        snapshots_listed(crate::node::startup::mended(after, node.dir()), node.dir()),
        reopened.opened(config, node.rules().config, after, from),
    ensures
        reopened.tip() == node.tip(),
        reopened.machine() == node.machine(),
        held(after, node.dir()) == held(node.disk(), node.dir()),
{
    law_reopened_node_agrees(node, after, torn, reopened, config, from);
    let cfg = node.rules().config;
    let dir = node.dir();
    let disk = node.disk();
    node.journal.lemma_wf(disk);
    node.journal.lemma_settled(disk);
    crate::durability::law_synced_journal_survives_whole(disk, after, dir, torn);
    if let Some((seq, m)) = from {
        let d = crate::node::startup::mended(after, dir);
        crate::node::startup::lemma_mended(after, dir);
        crate::recovery::lemma_same_history::<S>(cfg, node.past@, after, d, dir);
        crate::recovery::lemma_start_file::<S>(cfg, node.past@, d, dir, (seq, m));
        let p = crate::paths::numbered(dir, seq, crate::paths::snap_ext());
        assert(d.files.dom().contains(p) && after.files.dom().contains(p));
        assert(disk.files.dom().contains(p));
        assert(crate::recovery::is_snapshot(disk, dir, p));
    }
}

} // verus!
