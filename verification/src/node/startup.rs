//! Opening a node: recovery of the machine from the journal and the snapshots.

use vstd::prelude::*;

use crate::bus::InProcBus;
use crate::codec::CodecError;
use crate::frame::{Frame, FrameKind, Record};
use crate::journal::{after_recovery, held, names_right, records, recover, reseated, segments,
    FsyncPolicy, Journal, JournalError, JournalFault, Recovery};
use crate::machine::{apply_frame, genesis_machine, restore_machine, restored_machine, Machine};
use crate::node::{tidy, Home, Node, NodeConfig, NodeError, RecoveryInfo, Rules, TimeSource};
use crate::quorum::{Quorum, QuorumModel};
use crate::recovery::{anchor, ceiling, covered, first_seq, inputs_after, is_snapshot, may_start,
    pick, reached, recovered_machine, replay_after, snapshots_listed, start_machine, start_seq,
    tells, Past};
use crate::seq::{SeqNo, Timestamp};
use crate::service::{OutBuf, Service};
use crate::snapshot::{candidates, purged, snap_number, LoadedSnapshot, SnapshotModel,
    SnapshotStore};
use crate::storage::{Disk, DiskModel, IoError, Storage};
use crate::timer::TimerWheel;

verus! {

/// What loaded snapshots hold.
pub open spec fn models(found: Seq<LoadedSnapshot>) -> Seq<SnapshotModel> {
    found.map_values(|s: LoadedSnapshot| s@)
}

/// The first snapshot that decodes and that a journal starting at `first`
/// goes on from.
pub fn pick_snapshot<S: Service>(
    found: &Vec<LoadedSnapshot>,
    first: SeqNo,
    config: &S::Config,
) -> (r: Option<(SeqNo, S, TimerWheel)>)
    ensures
        match r {
            None => pick::<S>(*config, models(found@), first.0 as int, 0) is None,
            Some((seq, service, wheel)) => {
                &&& service.config() == *config
                &&& pick::<S>(*config, models(found@), first.0 as int, 0) == Some(
                    (seq.0, Machine { state: service.state(), wheel: wheel@ }),
                )
            },
        },
{
    let ghost all = models(found@);
    let n: usize = found.len();
    let mut i: usize = 0;
    while i < n
        invariant
            i <= n == found@.len(),
            all == models(found@),
            pick::<S>(*config, all, first.0 as int, 0) == pick::<S>(
                *config,
                all,
                first.0 as int,
                i as nat,
            ),
        decreases n - i,
    {
        let snap = &found[i];
        assert(all[i as int] == snap@);
        let reaches: bool = snap.seq.0 == u64::MAX || snap.seq.0 + 1 >= first.0;
        if reaches {
            if let Some((service, wheel)) = restore_machine::<S>(snap.payload.as_slice(), config) {
                return Some((snap.seq, service, wheel));
            }
        }
        i = i + 1;
    }
    None
}

/// Applies the frames behind seq `from`. Returns how many of them are inputs.
pub fn replay_frames<S: Service>(
    service: &mut S,
    wheel: &mut TimerWheel,
    frames: &Vec<Frame>,
    from: SeqNo,
) -> (r: Result<u64, NodeError>)
    ensures
        match replay_after::<S>(
            old(service).config(),
            Machine { state: old(service).state(), wheel: old(wheel)@ },
            records(frames@),
            from.0,
        ) {
            Ok(m) => {
                &&& final(service).config() == old(service).config()
                &&& m == (Machine { state: final(service).state(), wheel: final(wheel)@ })
                &&& r matches Ok(n) && n == inputs_after(records(frames@), from.0)
            },
            Err((seq, e)) => r matches Err(NodeError::CorruptInput { seq: s, err }) && s.0 == seq
                && err == e,
        },
{
    let ghost config = service.config();
    let ghost start = Machine { state: service.state(), wheel: wheel@ };
    let ghost all = records(frames@);
    let mut inputs: u64 = 0;
    let n: usize = frames.len();
    let mut i: usize = 0;
    assert(all.take(0) =~= Seq::<Record>::empty());
    while i < n
        invariant
            i <= n == frames@.len() == all.len(),
            all == records(frames@),
            inputs <= i,
            service.config() == config,
            config == old(service).config(),
            start == (Machine { state: old(service).state(), wheel: old(wheel)@ }),
            replay_after::<S>(config, start, all.take(i as int), from.0) == Ok::<
                Machine,
                (u64, CodecError),
            >(Machine { state: service.state(), wheel: wheel@ }),
            inputs == inputs_after(all.take(i as int), from.0),
        decreases n - i,
    {
        let frame = &frames[i];
        proof {
            assert(all[i as int] == frame@);
            assert(all.take(i + 1).drop_last() =~= all.take(i as int));
            assert(all.take(i + 1).last() == frame@);
        }
        if frame.seq.0 > from.0 {
            let mut outputs: OutBuf<S::Output> = OutBuf::new();
            if let Err(err) = apply_frame(service, wheel, frame, &mut outputs) {
                proof {
                    lemma_replay_error::<S>(config, start, all, from.0, (i + 1) as nat);
                }
                return Err(NodeError::CorruptInput { seq: frame.seq, err });
            }
            if frame.kind == FrameKind::Input {
                inputs = inputs + 1;
            }
        }
        i = i + 1;
    }
    assert(all.take(n as int) =~= all);
    Ok(inputs)
}

/// An error on the way is the error of the whole.
proof fn lemma_replay_error<S: Service>(
    config: S::Config,
    m: Machine,
    frames: Seq<Record>,
    from: u64,
    k: nat,
)
    requires
        k <= frames.len(),
        replay_after::<S>(config, m, frames.take(k as int), from) is Err,
    ensures
        replay_after::<S>(config, m, frames, from) == replay_after::<S>(
            config,
            m,
            frames.take(k as int),
            from,
        ),
    decreases frames.len() - k,
{
    if k == frames.len() {
        assert(frames.take(k as int) =~= frames);
    } else {
        assert(frames.take((k + 1) as int).drop_last() =~= frames.take(k as int));
        lemma_replay_error::<S>(config, m, frames, from, k + 1);
    }
}

/// The disk once a torn end of the journal has been cut off.
pub open spec fn mended(disk: DiskModel, dir: Seq<u8>) -> DiskModel {
    after_recovery(disk, dir, recover(disk, dir)->Ok_0)
}

/// The snapshot files that are named by a number are named as snapshots are.
pub open spec fn tidy_names(disk: DiskModel, dir: Seq<u8>) -> bool {
    tidy(disk, dir, u64::MAX)
}

/// The time of the last frame.
pub open spec fn end_time(frames: Seq<Record>) -> u64 {
    if frames.len() == 0 {
        0
    } else {
        frames.last().time
    }
}

/// A result without the node.
pub open spec fn told_of<N>(r: Result<N, NodeError>) -> Result<(), NodeError> {
    match r {
        Ok(_) => Ok(()),
        Err(e) => Err(e),
    }
}

/// What opening comes to on a disk that works: a damaged journal, a journal
/// whose beginning no snapshot covers and an input that does not decode are
/// refused, and nothing else is, but for a left-over segment in the way of a
/// journal that is to go on behind a snapshot.
#[verifier::opaque]
pub open spec fn owed<S: Service>(
    service_config: S::Config,
    disk: DiskModel,
    dir: Seq<u8>,
    r: Result<(), NodeError>,
) -> bool {
    match recover(disk, dir) {
        Err(fault) => r matches Err(NodeError::Journal(e)) && e@ == fault,
        Ok(found) => {
            let from = anchor::<S>(service_config, mended(disk, dir), dir);
            let machine = recovered_machine::<S>(service_config, disk, dir, from);
            if from is None && first_seq(found) > 1 {
                r matches Err(NodeError::UncoveredHistory { journal_first }) && journal_first.0
                    == first_seq(found)
            } else if start_seq(from) <= crate::journal::seq_before(found.next) {
                match machine {
                    Ok(_) => r is Ok,
                    Err((at, why)) => r matches Err(NodeError::CorruptInput { seq, err })
                        && seq.0 == at && err == why,
                }
            } else {
                names_right(disk, dir) && found.frames.len() < found.next ==> match blocked(
                    disk,
                    dir,
                    from,
                ) {
                    Some(e) => r is Err && r->Err_0 == NodeError::Journal(e),
                    None => match machine {
                        Ok(_) => r is Ok,
                        Err((at, why)) => r matches Err(NodeError::CorruptInput { seq, err })
                            && seq.0 == at && err == why,
                    },
                }
            }
        },
    }
}

/// What keeps a journal from going on behind the snapshot that recovery starts
/// from, where that lies behind the journal's end.
pub open spec fn blocked(disk: DiskModel, dir: Seq<u8>, from: Option<(u64, Machine)>) -> Option<
    JournalError,
> {
    let start = start_seq(from);
    if start == u64::MAX {
        Some(JournalError::SeqExhausted)
    } else if disk.has(crate::paths::numbered(dir, (start + 1) as u64, crate::paths::seg_ext())) {
        Some(JournalError::Io(IoError::AlreadyExists))
    } else {
        None
    }
}

/// What opening makes of the disk: a torn end of the journal is cut off,
/// snapshots of a history that is gone are deleted, and a journal that ends
/// before the snapshot that recovery starts from goes on behind it.
#[verifier::opaque]
pub open spec fn came_up<S: Service>(
    service_config: S::Config,
    disk: DiskModel,
    dir: Seq<u8>,
) -> DiskModel {
    let d = mended(disk, dir);
    let from = anchor::<S>(service_config, d, dir);
    let tip = reached(disk, dir, from);
    let fewer = purged(d, dir, tip);
    if start_seq(from) > crate::journal::seq_before((recover(disk, dir)->Ok_0).next) {
        reseated(fewer, dir, false, (tip + 1) as u64)
    } else {
        fewer
    }
}

proof fn lemma_owed_refusal<S: Service>(
    service_config: S::Config,
    disk: DiskModel,
    dir: Seq<u8>,
    e: JournalError,
)
    requires
        recover(disk, dir) == Err::<Recovery, JournalFault>(e@),
    ensures
        owed::<S>(service_config, disk, dir, Err(NodeError::Journal(e))),
{
    reveal(owed);
}

proof fn lemma_owed_uncovered<S: Service>(
    service_config: S::Config,
    disk: DiskModel,
    dir: Seq<u8>,
    journal_first: SeqNo,
)
    requires
        recover(disk, dir) is Ok,
        anchor::<S>(service_config, mended(disk, dir), dir) is None,
        first_seq(recover(disk, dir)->Ok_0) > 1,
        journal_first.0 == first_seq(recover(disk, dir)->Ok_0),
    ensures
        owed::<S>(
            service_config,
            disk,
            dir,
            Err(NodeError::UncoveredHistory { journal_first }),
        ),
{
    reveal(owed);
}

/// Where opening gets on to the end, what came of it depends on the replay.
proof fn lemma_owed_replay<S: Service>(
    service_config: S::Config,
    disk: DiskModel,
    dir: Seq<u8>,
    r: Result<(), NodeError>,
)
    requires
        recover(disk, dir) is Ok,
        anchor::<S>(service_config, mended(disk, dir), dir) is None ==> first_seq(
            recover(disk, dir)->Ok_0,
        ) <= 1,
        ({
            let from = anchor::<S>(service_config, mended(disk, dir), dir);
            let found = recover(disk, dir)->Ok_0;
            start_seq(from) > crate::journal::seq_before(found.next) && names_right(disk, dir)
                && found.frames.len() < found.next ==> blocked(disk, dir, from) is None
        }),
        match recovered_machine::<S>(
            service_config,
            disk,
            dir,
            anchor::<S>(service_config, mended(disk, dir), dir),
        ) {
            Ok(_) => r is Ok,
            Err((at, why)) => r matches Err(NodeError::CorruptInput { seq, err }) && seq.0 == at
                && err == why,
        },
    ensures
        owed::<S>(service_config, disk, dir, r),
{
    reveal(owed);
}

/// Where a journal that is to go on behind a snapshot cannot, that is owed.
proof fn lemma_owed_stuck<S: Service>(
    service_config: S::Config,
    disk: DiskModel,
    dir: Seq<u8>,
    r: Result<(), NodeError>,
)
    requires
        recover(disk, dir) is Ok,
        ({
            let found = recover(disk, dir)->Ok_0;
            let from = anchor::<S>(service_config, mended(disk, dir), dir);
            &&& from is None ==> first_seq(found) <= 1
            &&& start_seq(from) > crate::journal::seq_before(found.next)
            &&& names_right(disk, dir) && found.frames.len() < found.next ==> blocked(
                disk,
                dir,
                from,
            ) is Some && r is Err && r->Err_0 == NodeError::Journal(blocked(disk, dir, from)->0)
        }),
    ensures
        owed::<S>(service_config, disk, dir, r),
{
    reveal(owed);
}

impl<S: Service, T: TimeSource, St: Storage> Node<S, T, St> {
    /// The node was opened from `from` on the disk `disk`.
    pub open spec fn opened(
        &self,
        config: NodeConfig,
        service_config: S::Config,
        disk: DiskModel,
        from: Option<(u64, Machine)>,
    ) -> bool {
        let dir = config.journal.dir@;
        let found = recover(disk, dir)->Ok_0;
        &&& recover(disk, dir) is Ok
        &&& may_start::<S>(service_config, mended(disk, dir), dir, from)
        &&& recovered_machine::<S>(service_config, disk, dir, from) == Ok::<
            Machine,
            (u64, CodecError),
        >(self.machine())
        &&& self.tip() == reached(disk, dir, from)
        &&& self.last_time() == end_time(found.frames)
        &&& self.dir() == dir
        &&& self.rules() == (Rules {
            config: service_config,
            stream_id: config.stream_id,
            every: config.snapshot_every,
        })
        &&& self.retains() == config.retain_snapshots
        &&& self.waiting() == Seq::<Seq<Record>>::empty()
        &&& self.quorum() == match config.quorum {
            None => None,
            Some((voters, id)) => Some(
                QuorumModel {
                    high_waters: Map::empty(),
                    voters: voters as nat,
                    id,
                    floor: self.tip(),
                    pending: Seq::empty(),
                },
            ),
        }
        &&& self.how_opened() == (RecoveryInfo {
            snapshot_seq: if start_seq(from) > 0 {
                Some(SeqNo(start_seq(from)))
            } else {
                None
            },
            inputs_replayed: inputs_after(found.frames, start_seq(from)) as u64,
        })
        &&& names_right(disk, dir) && found.frames.len() < found.next ==> {
            &&& self.wf()
            &&& start_seq(from) <= crate::journal::seq_before(found.next) ==> self.frames()
                == found.frames && !self.pending()
        }
    }

    /// Opens a node: recovers its machine from the newest usable snapshot and
    /// the journal behind it, then accepts new inputs at the tip.
    #[verifier::rlimit(100)]
    #[verifier::spinoff_prover]
    pub fn open_with(
        config: NodeConfig,
        service_config: S::Config,
        clock: T,
        storage: St,
    ) -> (r: Result<Self, NodeError>)
        ensures
            match r {
                Ok(node) => {
                    let disk = storage.view();
                    let dir = config.journal.dir@;
                    &&& node.reliable() == storage.reliable()
                    &&& node.clock() == clock
                    &&& node.home() == (Home {
                        dir,
                        segment_bytes: config.journal.segment_bytes,
                        retains: config.retain_snapshots as nat,
                    })
                    &&& node.lazy() == (config.journal.fsync == FsyncPolicy::Never)
                    &&& names_right(disk, dir) && held(disk, dir).frames.len() < held(
                        disk,
                        dir,
                    ).next ==> {
                        &&& node.disk().epoch == disk.epoch
                        &&& storage.reliable() ==> node.disk() == came_up::<S>(
                            service_config,
                            disk,
                            dir,
                        )
                        &&& !node.pending()
                        &&& forall|len: nat|
                            60 + len <= config.journal.segment_bytes ==> #[trigger] node.takes(len)
                        &&& (forall|p: Seq<u8>| !#[trigger] is_snapshot(disk, dir, p))
                            ==> node.bare()
                    }
                    &&& exists|from: Option<(u64, Machine)>| #[trigger]
                        node.opened(config, service_config, disk, from) && (storage.reliable()
                            ==> from == anchor::<S>(service_config, mended(disk, dir), dir))
                    &&& forall|past: Past| #[trigger]
                        tells::<S>(service_config, past, disk, dir) ==> past.contains_key(
                            node.tip(),
                        ) && past[node.tip()] == node.machine()
                    &&& told::<S>(service_config, disk, dir) && covered(disk, dir) && tidy_names(
                        disk,
                        dir,
                    ) ==> node.faithful()
                    &&& names_right(disk, dir) && held(disk, dir).frames.len() < held(
                        disk,
                        dir,
                    ).next && synced_throughout(disk, dir) ==> node.settled()
                    &&& names_right(disk, dir) && held(disk, dir).frames.len() < held(
                        disk,
                        dir,
                    ).next && !disk.has(
                        crate::paths::numbered(
                            dir,
                            (node.tip() + 1) as u64,
                            crate::paths::seg_ext(),
                        ),
                    ) ==> node.ready()
                },
                Err(NodeError::CorruptInput { seq, err }) => {
                    exists|from: Option<(u64, Machine)>| #[trigger]
                        recovered_machine::<S>(
                            service_config,
                            storage.view(),
                            config.journal.dir@,
                            from,
                        ) == Err::<Machine, (u64, CodecError)>((seq.0, err))
                },
                Err(NodeError::UncoveredHistory { journal_first }) => {
                    let found = recover(storage.view(), config.journal.dir@)->Ok_0;
                    first_seq(found) > 1 && journal_first.0 == first_seq(found)
                },
                Err(_) => true,
            },
            storage.reliable() && told::<S>(
                service_config,
                storage.view(),
                config.journal.dir@,
            ) && covered(storage.view(), config.journal.dir@) && room(
                storage.view(),
                config.journal.dir@,
                anchor::<S>(
                    service_config,
                    mended(storage.view(), config.journal.dir@),
                    config.journal.dir@,
                ),
            ) ==> r is Ok,
            storage.reliable() ==> owed::<S>(
                service_config,
                storage.view(),
                config.journal.dir@,
                told_of(r),
            ),
    {
        let mut storage = storage;
        let ghost disk = storage.view();
        let ghost dir = config.journal.dir@;
        let journal_config = config.journal.clone();
        let recovered = match Journal::open_with(config.journal, &mut storage) {
            Ok(rec) => rec,
            Err(e) => {
                proof {
                    if storage.reliable() {
                        lemma_owed_refusal::<S>(service_config, disk, dir, e);
                    }
                }
                return Err(NodeError::Journal(e));
            },
        };
        let ghost d = storage.view();
        let ghost found = recover(disk, dir)->Ok_0;
        assert(d == mended(disk, dir));
        let mut journal = recovered.journal;
        let frames = recovered.frames;
        let first: SeqNo = recovered.first_seq;
        let snapshots = SnapshotStore::new(journal_config.dir.as_slice());
        let last: SeqNo = journal.last_seq();
        let high: SeqNo = match snapshots.high_water_seq(&storage) {
            Ok(h) => h,
            Err(e) => {
                return Err(NodeError::Journal(e));
            },
        };
        let top: SeqNo = if high.0 > last.0 {
            high
        } else {
            last
        };
        let loaded = match snapshots.load_candidates(&storage, top) {
            Ok(l) => l,
            Err(e) => {
                return Err(NodeError::Journal(e));
            },
        };
        let picked = pick_snapshot::<S>(&loaded, first, &service_config);
        let ghost from = pick::<S>(service_config, models(loaded@), first.0 as int, 0);
        proof {
            lemma_mended(disk, dir);
            crate::journal::lemma_recover_order(
                segments(disk, dir),
                disk.files,
                segments(disk, dir).len(),
            );
            lemma_picked::<S>(service_config, d, dir, loaded@, first.0 as int, from);
            if told::<S>(service_config, disk, dir) && covered(disk, dir) {
                let past = some_history::<S>(service_config, disk, dir);
                crate::recovery::lemma_same_history::<S>(service_config, past, disk, d, dir);
                crate::recovery::lemma_anchor::<S>(service_config, past, d, dir);
            }
        }
        let (start, mut service, mut wheel) = match picked {
            Some((seq, service, wheel)) => (seq, service, wheel),
            None => {
                if first.0 > 1 {
                    proof {
                        if storage.reliable() {
                            lemma_owed_uncovered::<S>(service_config, disk, dir, first);
                        }
                    }
                    return Err(NodeError::UncoveredHistory { journal_first: first });
                }
                (SeqNo(0), S::genesis(&service_config), TimerWheel::new())
            },
        };
        assert(may_start::<S>(service_config, d, dir, from));
        assert((Machine { state: service.state(), wheel: wheel@ }) == start_machine::<S>(
            service_config,
            from,
        ));
        let tip: SeqNo = if start.0 > last.0 {
            start
        } else {
            last
        };
        if let Err(e) = snapshots.purge_after(&mut storage, tip) {
            return Err(NodeError::Journal(e));
        }
        let ghost d2 = storage.view();
        proof {
            lemma_purged(d, d2, dir, tip.0);
            if journal.wf(d) {
                journal.lemma_other_files(d, d2);
            }
        }
        let ghost kept = journal.wf(d2);
        let ghost sound = names_right(disk, dir) && found.frames.len() < found.next;
        proof {
            if sound {
                lemma_still_roomy(journal, d, d2);
            }
            if kept {
                journal.lemma_wf(d2);
            }
        }
        if start.0 > last.0 {
            if tip.0 == u64::MAX {
                proof {
                    if storage.reliable() {
                        lemma_owed_stuck::<S>(
                            service_config,
                            disk,
                            dir,
                            Err(NodeError::Journal(JournalError::SeqExhausted)),
                        );
                    }
                }
                return Err(NodeError::Journal(JournalError::SeqExhausted));
            }
            if let Err(e) = journal.reseat_to(&mut storage, SeqNo(tip.0 + 1)) {
                proof {
                    if storage.reliable() {
                        lemma_owed_stuck::<S>(
                            service_config,
                            disk,
                            dir,
                            Err(NodeError::Journal(e)),
                        );
                    }
                }
                return Err(NodeError::Journal(e));
            }
            proof {
                if kept {
                    journal.lemma_wf(storage.view());
                    lemma_reseated_snapshots(d2, storage.view(), dir, (tip.0 + 1) as u64);
                }
            }
        }
        let ghost d3 = storage.view();
        proof {
            if sound {
                lemma_still_bare(disk, d, d2, d3, dir);
            }
            if told::<S>(service_config, disk, dir) {
                let past = some_history::<S>(service_config, disk, dir);
                crate::recovery::lemma_same_history::<S>(service_config, past, disk, d, dir);
                crate::recovery::law_recovery_rebuilds_the_machine::<S>(
                    service_config,
                    past,
                    d,
                    dir,
                    from,
                );
            }
        }
        let inputs_replayed: u64 = match replay_frames(&mut service, &mut wheel, &frames, start) {
            Ok(n) => n,
            Err(e) => {
                assert(recovered_machine::<S>(service_config, disk, dir, from) is Err);
                proof {
                    if storage.reliable() {
                        lemma_owed_replay::<S>(service_config, disk, dir, Err(e));
                    }
                }
                return Err(e);
            },
        };
        let last_timestamp: Timestamp = if frames.len() > 0 {
            assert(records(frames@)[frames@.len() - 1] == frames@[frames@.len() - 1]@);
            frames[frames.len() - 1].timestamp
        } else {
            Timestamp(0)
        };
        let quorum = match config.quorum {
            Some((voters, id)) => Some(Quorum::new(voters, id, tip)),
            None => None,
        };
        let recovery = RecoveryInfo {
            snapshot_seq: if start.0 > 0 {
                Some(start)
            } else {
                None
            },
            inputs_replayed,
        };
        let node = Node {
            service,
            service_config,
            journal_config,
            storage,
            journal,
            snapshots,
            snapshot_every: config.snapshot_every,
            retain_snapshots: config.retain_snapshots,
            clock,
            stream_id: config.stream_id,
            seq: tip,
            last_timestamp,
            wheel,
            bus: InProcBus::new(),
            recovery,
            quorum,
            past: Ghost(some_history::<S>(service_config, disk, dir)),
        };
        proof {
            if sound && start.0 <= last.0 {
                assert(held(d3, dir).frames == found.frames);
            }
            if sound && storage.reliable() {
                assert(d3 == came_up::<S>(service_config, disk, dir)) by {
                    reveal(came_up);
                }
            }
            assert(node.opened(config, service_config, disk, from));
            if storage.reliable() {
                lemma_owed_replay::<S>(service_config, disk, dir, Ok(()));
            }
            if sound {
                lemma_room_left(node, config.journal.segment_bytes);
            }
            if kept {
                node.journal.lemma_ready(d3, d3);
                assert(d2.has(
                    crate::paths::numbered(dir, (tip.0 + 1) as u64, crate::paths::seg_ext()),
                ) ==> disk.has(
                    crate::paths::numbered(dir, (tip.0 + 1) as u64, crate::paths::seg_ext()),
                ));
                if synced_throughout(disk, dir) {
                    lemma_still_synced(disk, d2, dir);
                    if start.0 <= last.0 {
                        node.journal.lemma_wf(d3);
                        node.journal.lemma_all_synced(d3);
                    }
                    assert(crate::recovery::snapshots_synced(d3, dir)) by {
                        assert forall|p: Seq<u8>| #[trigger]
                            is_snapshot(d3, dir, p) implies d3.files[p].unsynced.len() == 0 by {
                            crate::recovery::lemma_extensions_differ(p);
                            assert(d3.has(p));
                            assert(d2.has(p));
                        }
                    }
                }
            }
            assert forall|past: Past| #[trigger]
                tells::<S>(service_config, past, disk, dir) implies past.contains_key(node.tip())
                && past[node.tip()] == node.machine() by {
                crate::recovery::lemma_same_history::<S>(service_config, past, disk, d, dir);
                crate::recovery::law_recovery_rebuilds_the_machine::<S>(
                    service_config,
                    past,
                    d,
                    dir,
                    from,
                );
            }
            if told::<S>(service_config, disk, dir) && covered(disk, dir) && tidy_names(
                disk,
                dir,
            ) {
                let past = some_history::<S>(service_config, disk, dir);
                crate::recovery::lemma_same_history::<S>(service_config, past, disk, d, dir);
                lemma_settled_history::<S>(service_config, past, d, d2, d3, dir, from, tip.0);
            }
        }
        Ok(node)
    }
}

/// Nothing in `dir` is unsynced.
pub open spec fn synced_throughout(disk: DiskModel, dir: Seq<u8>) -> bool {
    forall|p: Seq<u8>| #[trigger]
        disk.has(p) && crate::paths::is_child(p, dir) ==> disk.files[p].unsynced.len() == 0
}

/// What is on the disk tells of some history.
pub open spec fn told<S: Service>(config: S::Config, disk: DiskModel, dir: Seq<u8>) -> bool {
    exists|past: Past| #[trigger] tells::<S>(config, past, disk, dir)
}

/// A history that the disk tells of.
pub open spec fn some_history<S: Service>(config: S::Config, disk: DiskModel, dir: Seq<u8>) -> Past {
    choose|past: Past| #[trigger] tells::<S>(config, past, disk, dir)
}

/// Where recovery starts behind the journal's end, a seq is left behind the
/// snapshot and no segment is in the way.
pub open spec fn room(disk: DiskModel, dir: Seq<u8>, from: Option<(u64, Machine)>) -> bool {
    let start = start_seq(from);
    start > crate::journal::seq_before((recover(disk, dir)->Ok_0).next) ==> start < u64::MAX
        && !disk.has(crate::paths::numbered(dir, (start + 1) as u64, crate::paths::seg_ext()))
}

/// With fewer files there is still room.
proof fn lemma_still_roomy<St: Storage>(journal: Journal<St>, d: DiskModel, d2: DiskModel)
    requires
        journal.roomy(d),
        forall|p: Seq<u8>| #[trigger] d2.has(p) ==> d.has(p),
    ensures
        journal.roomy(d2),
{
    assert forall|len: nat| #[trigger]
        journal.needs_roll(len) && 28 + len <= journal.segment_bytes() implies !d2.has(
        crate::paths::numbered(
            journal.dir(),
            (journal.tip() + 1) as u64,
            crate::paths::seg_ext(),
        ),
    ) by {}
}

/// Opening writes no snapshot.
proof fn lemma_still_bare(
    disk: DiskModel,
    d: DiskModel,
    d2: DiskModel,
    d3: DiskModel,
    dir: Seq<u8>,
)
    requires
        crate::recovery::same_snapshots(disk, d, dir),
        forall|p: Seq<u8>| #[trigger] d2.has(p) ==> d.has(p),
        forall|p: Seq<u8>| #[trigger]
            d3.has(p) ==> d2.has(p) || crate::paths::has_extension(p, crate::paths::seg_ext()),
    ensures
        (forall|p: Seq<u8>| !#[trigger] is_snapshot(disk, dir, p)) ==> forall|p: Seq<u8>|
            !#[trigger] is_snapshot(d3, dir, p),
{
    if forall|p: Seq<u8>| !#[trigger] is_snapshot(disk, dir, p) {
        assert forall|p: Seq<u8>| !#[trigger] is_snapshot(d3, dir, p) by {
            crate::recovery::lemma_extensions_differ(p);
            if is_snapshot(d3, dir, p) {
                assert(d3.has(p));
                assert(d2.has(p));
                assert(is_snapshot(d, dir, p));
                assert(is_snapshot(disk, dir, p));
            }
        }
    }
}

/// A node with room in its journal, or one that is ready, takes every frame
/// that fits a segment.
proof fn lemma_room_left<S: Service, T: TimeSource, St: Storage>(node: Node<S, T, St>, bytes: u64)
    requires
        node.journal.roomy(node.storage.view()) || node.ready(),
        node.journal.segment_bytes() == bytes,
    ensures
        forall|len: nat| 60 + len <= bytes ==> #[trigger] node.takes(len),
{
    assert forall|len: nat| 60 + len <= bytes implies #[trigger] node.takes(len) by {
        if node.ready() {
            node.lemma_takes(len);
        } else {
            assert(node.journal.needs_roll(32 + len) ==> 28 + (32 + len)
                <= node.journal.segment_bytes());
        }
    }
}

/// On an empty disk history has not begun.
pub proof fn law_fresh_disk<S: Service>(config: S::Config, disk: DiskModel, dir: Seq<u8>)
    requires
        disk.files == Map::<Seq<u8>, crate::storage::FileModel>::empty(),
    ensures
        recover(disk, dir) is Ok,
        held(disk, dir).frames == Seq::<Record>::empty(),
        held(disk, dir).next == 1,
        names_right(disk, dir),
        synced_throughout(disk, dir),
        tidy_names(disk, dir),
        covered(disk, dir),
        tells::<S>(config, map![0u64 => genesis_machine::<S>(config)], disk, dir),
        anchor::<S>(config, mended(disk, dir), dir) is None,
{
    let none = Seq::<Seq<u8>>::empty();
    assert forall|p: Seq<u8>| !#[trigger] disk.has(p) by {}
    let segs = crate::listing::wanted(disk, dir, crate::paths::seg_ext());
    let snaps = crate::listing::wanted(disk, dir, crate::paths::snap_ext());
    assert(crate::paths::is_listing(none, segs));
    assert(crate::paths::is_listing(none, snaps));
    crate::listing::lemma_is_the_listing(none, disk, dir, crate::paths::seg_ext());
    crate::listing::lemma_is_the_listing(none, disk, dir, crate::paths::snap_ext());
    assert(mended(disk, dir) == disk);
    assert(candidates(disk, dir, ceiling(disk, dir)).len() == 0);
}

/// Cutting off a torn end leaves frames and snapshots as they were.
pub proof fn lemma_mended(disk: DiskModel, dir: Seq<u8>)
    requires
        crate::paths::is_listing(
            segments(disk, dir),
            crate::listing::wanted(disk, dir, crate::paths::seg_ext()),
        ),
        recover(disk, dir) is Ok,
    ensures
        recover(mended(disk, dir), dir) is Ok,
        held(mended(disk, dir), dir).frames == held(disk, dir).frames,
        held(mended(disk, dir), dir).next == held(disk, dir).next,
        crate::recovery::same_snapshots(disk, mended(disk, dir), dir),
        forall|p: Seq<u8>| mended(disk, dir).has(p) == disk.has(p),
        names_right(disk, dir) && held(disk, dir).frames.len() < held(disk, dir).next
            ==> crate::journal::well_kept(mended(disk, dir), dir),
{
    let d = mended(disk, dir);
    crate::journal::lemma_after_recovery(disk, dir);
    assert forall|p: Seq<u8>| d.has(p) == disk.has(p) by {
        assert(d.files.dom().contains(p) == disk.files.dom().contains(p));
    }
    assert forall|p: Seq<u8>| #[trigger] is_snapshot(d, dir, p) implies d.files[p]
        == disk.files[p] by {
        crate::recovery::lemma_extensions_differ(p);
        if recover(disk, dir)->Ok_0.torn is Some {
            let last = segments(disk, dir).last();
            assert(crate::listing::wanted(disk, dir, crate::paths::seg_ext())(last));
            assert(p != last);
        }
    }
}

/// A node that was opened on a disk that tells of a history stands at the end of
/// it.
proof fn lemma_opened_follows<S: Service, T: TimeSource, St: Storage>(
    node: Node<S, T, St>,
    config: NodeConfig,
    service_config: S::Config,
    past: Past,
    disk: DiskModel,
    from: Option<(u64, Machine)>,
)
    requires
        tells::<S>(service_config, past, disk, config.journal.dir@),
        snapshots_listed(disk, config.journal.dir@),
        node.opened(config, service_config, disk, from),
    ensures
        past.contains_key(node.tip()),
        past[node.tip()] == node.machine(),
{
    let dir = config.journal.dir@;
    let d = mended(disk, dir);
    lemma_mended(disk, dir);
    crate::recovery::lemma_same_history::<S>(service_config, past, disk, d, dir);
    assert forall|p: Seq<u8>| d.files.dom().contains(p) == disk.files.dom().contains(p) by {
        assert(d.has(p) == disk.has(p));
    }
    assert(d.files.dom() =~= disk.files.dom());
    crate::listing::lemma_listing_of_same_paths(disk, d, dir, crate::paths::snap_ext());
    assert(crate::listing::wanted(disk, dir, crate::paths::snap_ext())
        =~= crate::listing::wanted(d, dir, crate::paths::snap_ext()));
    crate::recovery::law_recovery_rebuilds_the_machine::<S>(service_config, past, d, dir, from);
}

/// Two nodes that are opened, one on a directory as it was and one with any of
/// its snapshots deleted or unreadable, agree: the same tip, the same machine
/// and the same time, as long as no snapshot reaches beyond the journal.
pub proof fn law_opened_nodes_agree<S: Service, T: TimeSource, St: Storage>(
    a: Node<S, T, St>,
    b: Node<S, T, St>,
    config: NodeConfig,
    service_config: S::Config,
    past: Past,
    before: DiskModel,
    after: DiskModel,
    from_a: Option<(u64, Machine)>,
    from_b: Option<(u64, Machine)>,
)
    requires
        tells::<S>(service_config, past, before, config.journal.dir@),
        snapshots_listed(before, config.journal.dir@),
        snapshots_listed(after, config.journal.dir@),
        crate::recovery::snapshots_damaged(before, after, config.journal.dir@),
        a.opened(config, service_config, before, from_a),
        b.opened(config, service_config, after, from_b),
        start_seq(from_a) < held(before, config.journal.dir@).next,
        start_seq(from_b) < held(before, config.journal.dir@).next,
    ensures
        a.tip() == b.tip(),
        a.machine() == b.machine(),
        a.last_time() == b.last_time(),
        past.contains_key(a.tip()) && a.machine() == past[a.tip()],
{
    let dir = config.journal.dir@;
    crate::recovery::lemma_damage_keeps_history::<S>(service_config, past, before, after, dir);
    lemma_opened_follows(a, config, service_config, past, before, from_a);
    lemma_opened_follows(b, config, service_config, past, after, from_b);
}

/// A journal whose first seq is 0 or 1 goes on from every snapshot.
proof fn lemma_pick_any<S: Service>(config: S::Config, all: Seq<SnapshotModel>, i: nat)
    ensures
        pick::<S>(config, all, 0, i) == pick::<S>(config, all, 1, i),
    decreases all.len() - i,
{
    if i < all.len() {
        lemma_pick_any::<S>(config, all, i + 1);
    }
}

/// What is picked from candidates can be started from.
proof fn lemma_picked<S: Service>(
    config: S::Config,
    disk: DiskModel,
    dir: Seq<u8>,
    loaded: Seq<LoadedSnapshot>,
    first: int,
    from: Option<(u64, Machine)>,
)
    requires
        recover(disk, dir) is Ok,
        from == pick::<S>(config, models(loaded), first, 0),
        forall|i: int|
            0 <= i < loaded.len() ==> candidates(disk, dir, ceiling(disk, dir)).contains(
                (#[trigger] loaded[i])@,
            ),
        first == first_seq(held(disk, dir)) || (first == 1 && first_seq(held(disk, dir)) == 0),
    ensures
        from is Some ==> may_start::<S>(config, disk, dir, from),
        models(loaded) == candidates(disk, dir, ceiling(disk, dir)) ==> from == anchor::<S>(
            config,
            disk,
            dir,
        ),
{
    let all = models(loaded);
    crate::recovery::lemma_pick_sound::<S>(config, all, first, 0);
    lemma_pick_any::<S>(config, all, 0);
    if let Some((seq, m)) = from {
        let s = choose|s: SnapshotModel| #[trigger]
            all.contains(s) && s.seq == seq && restored_machine::<S>(config, s.payload) == Some(m);
        let i = choose|i: int| 0 <= i < all.len() && all[i] == s;
        assert(loaded[i]@ == s);
        assert(candidates(disk, dir, ceiling(disk, dir)).contains(s));
    }
}

/// Purging touches snapshot files only.
proof fn lemma_purged(before: DiskModel, after: DiskModel, dir: Seq<u8>, max: u64)
    requires
        forall|p: Seq<u8>| #[trigger]
            after.has(p) ==> before.has(p) && after.files[p] == before.files[p],
        forall|p: Seq<u8>|
            before.has(p) && !crate::snapshot::stale(before, dir, max, p) ==> #[trigger] after.has(
                p,
            ),
    ensures
        crate::journal::same_segments(before, after, dir),
{
    assert forall|p: Seq<u8>|
        crate::paths::has_extension(p, crate::paths::seg_ext()) implies (#[trigger] after.has(p)
        == before.has(p)) && (before.has(p) ==> after.files[p] == before.files[p]) by {
        crate::recovery::lemma_extensions_differ(p);
        if before.has(p) {
            assert(!crate::snapshot::stale(before, dir, max, p));
            assert(after.has(p));
        }
    }
    crate::recovery::lemma_segments_untouched(before, after, dir);
}

/// What is left on the disk after the purge, and after the journal was
/// started afresh where the snapshot is behind its end, tells of the history.
proof fn lemma_settled_history<S: Service>(
    config: S::Config,
    past: Past,
    d: DiskModel,
    purged: DiskModel,
    now: DiskModel,
    dir: Seq<u8>,
    from: Option<(u64, Machine)>,
    tip: u64,
)
    requires
        tells::<S>(config, past, d, dir),
        covered(d, dir),
        crate::journal::well_kept(d, dir),
        snapshots_listed(d, dir),
        may_start::<S>(config, d, dir, from),
        tip == reached(d, dir, from),
        forall|p: Seq<u8>| #[trigger]
            is_snapshot(d, dir, p) ==> (snap_number(p, dir) matches Some(n) ==> p
                == crate::paths::numbered(dir, n, crate::paths::snap_ext())),
        forall|p: Seq<u8>| #[trigger]
            purged.has(p) ==> d.has(p) && purged.files[p] == d.files[p],
        forall|p: Seq<u8>|
            d.has(p) && !crate::snapshot::stale(d, dir, tip, p) ==> #[trigger] purged.has(p),
        forall|p: Seq<u8>|
            crate::snapshot::stale(d, dir, tip, p) ==> !(#[trigger] purged.has(p)),
        start_seq(from) <= crate::journal::seq_before(held(d, dir).next) ==> now == purged,
        start_seq(from) > crate::journal::seq_before(held(d, dir).next) ==> {
            &&& crate::journal::well_kept(now, dir)
            &&& held(now, dir).frames == Seq::<Record>::empty()
            &&& held(now, dir).next == tip + 1
            &&& crate::recovery::same_snapshots(purged, now, dir)
        },
    ensures
        tells::<S>(config, past, now, dir),
        covered(now, dir),
        tidy(now, dir, tip),
{
    let ext = crate::paths::snap_ext();
    assert forall|p: Seq<u8>| d.has(p) && !is_snapshot(d, dir, p) implies #[trigger] purged.has(
        p,
    ) by {
        assert(!crate::snapshot::stale(d, dir, tip, p));
    }
    crate::recovery::lemma_fewer_snapshots::<S>(config, past, d, purged, dir);
    assert forall|p: Seq<u8>| #[trigger] is_snapshot(purged, dir, p) implies (snap_number(
        p,
        dir,
    ) matches Some(n) ==> n <= tip && p == crate::paths::numbered(dir, n, ext)) by {
        assert(purged.has(p));
        assert(is_snapshot(d, dir, p));
        assert(crate::listing::wanted(d, dir, ext)(p));
        assert(!crate::snapshot::stale(d, dir, tip, p));
    }
    let first = first_seq(held(d, dir));
    if let Some((seq, m)) = from {
        let p = crate::paths::numbered(dir, seq, ext);
        crate::recovery::lemma_start_file::<S>(config, past, d, dir, (seq, m));
        assert(!crate::snapshot::stale(d, dir, tip, p));
        assert(purged.has(p));
        assert(is_snapshot(purged, dir, p));
        assert(crate::recovery::covers(purged, dir, p, first));
        if seq > crate::journal::seq_before(held(d, dir).next) {
            assert(is_snapshot(now, dir, p));
            assert(crate::recovery::covers(now, dir, p, held(now, dir).next as int));
            crate::recovery::lemma_reseated_history::<S>(config, past, purged, now, dir, p);
            assert(tidy(now, dir, tip)) by {
                assert forall|p: Seq<u8>| #[trigger] is_snapshot(now, dir, p) implies (snap_number(
                    p,
                    dir,
                ) matches Some(n) ==> n <= tip && p == crate::paths::numbered(dir, n, ext)) by {
                    assert(is_snapshot(purged, dir, p));
                }
            }
        }
    }
}

/// Starting the journal afresh leaves the snapshots alone.
proof fn lemma_reseated_snapshots(before: DiskModel, after: DiskModel, dir: Seq<u8>, next: u64)
    requires
        crate::paths::is_listing(
            segments(before, dir),
            crate::listing::wanted(before, dir, crate::paths::seg_ext()),
        ),
        forall|p: Seq<u8>| #[trigger]
            before.has(p) && !segments(before, dir).contains(p) ==> after.has(p)
                && after.files[p].content() == before.files[p].content(),
        forall|p: Seq<u8>| #[trigger]
            after.has(p) ==> before.has(p) || p == crate::paths::numbered(
                dir,
                next,
                crate::paths::seg_ext(),
            ),
    ensures
        crate::recovery::same_snapshots(before, after, dir),
{
    let segs = segments(before, dir);
    crate::paths::lemma_numbered(dir, next, crate::paths::seg_ext());
    assert forall|p: Seq<u8>| #[trigger] is_snapshot(before, dir, p) implies is_snapshot(
        after,
        dir,
        p,
    ) && after.files[p].content() == before.files[p].content() by {
        crate::recovery::lemma_extensions_differ(p);
        if segs.contains(p) {
            let i = choose|i: int| 0 <= i < segs.len() && segs[i] == p;
            assert(crate::listing::wanted(before, dir, crate::paths::seg_ext())(segs[i]));
        }
        assert(before.has(p));
    }
    assert forall|p: Seq<u8>| #[trigger] is_snapshot(after, dir, p) implies is_snapshot(
        before,
        dir,
        p,
    ) by {
        crate::recovery::lemma_extensions_differ(p);
        assert(after.has(p));
    }
}

/// Mending and purging leave nothing unsynced.
proof fn lemma_still_synced(disk: DiskModel, purged: DiskModel, dir: Seq<u8>)
    requires
        crate::paths::is_listing(
            segments(disk, dir),
            crate::listing::wanted(disk, dir, crate::paths::seg_ext()),
        ),
        recover(disk, dir) is Ok,
        synced_throughout(disk, dir),
        forall|p: Seq<u8>| #[trigger]
            purged.has(p) ==> mended(disk, dir).has(p) && purged.files[p] == mended(
                disk,
                dir,
            ).files[p],
        crate::paths::is_listing(
            segments(purged, dir),
            crate::listing::wanted(purged, dir, crate::paths::seg_ext()),
        ),
    ensures
        synced_throughout(purged, dir),
        forall|i: int|
            0 <= i < segments(purged, dir).len() ==> purged.files[
                #[trigger] segments(purged, dir)[i]
            ].unsynced.len() == 0,
{
    let d = mended(disk, dir);
    lemma_mended(disk, dir);
    assert forall|p: Seq<u8>| #[trigger]
        purged.has(p) && crate::paths::is_child(p, dir) implies purged.files[p].unsynced.len()
        == 0 by {
        assert(d.has(p));
        assert(disk.has(p));
    }
    let segs = segments(purged, dir);
    assert forall|i: int| 0 <= i < segs.len() implies purged.files[
        #[trigger] segs[i]
    ].unsynced.len() == 0 by {
        assert(crate::listing::wanted(purged, dir, crate::paths::seg_ext())(segs[i]));
        assert(purged.has(segs[i]));
    }
}

/// What opening on a disk that works comes to: a damaged journal is refused with
/// its fault, a journal that begins behind its first frame and that no snapshot
/// covers is refused with the seq that it begins at, and a node that opens has
/// replayed everything.
pub proof fn law_opening_is_refused_for_cause<S: Service>(
    service_config: S::Config,
    disk: DiskModel,
    dir: Seq<u8>,
    r: Result<(), NodeError>,
)
    requires
        owed::<S>(service_config, disk, dir, r),
    ensures
        ({
            let from = anchor::<S>(service_config, mended(disk, dir), dir);
            let found = recover(disk, dir)->Ok_0;
            &&& recover(disk, dir) matches Err(fault) ==> (r matches Err(NodeError::Journal(e)) && e@
                == fault)
            &&& recover(disk, dir) is Ok && from is None && first_seq(found) > 1 ==> (
            r matches Err(NodeError::UncoveredHistory { journal_first }) && journal_first.0
                == first_seq(found))
            &&& r is Ok ==> recover(disk, dir) is Ok && (from is Some || first_seq(found) <= 1)
            &&& r is Ok && start_seq(from) < found.next ==> recovered_machine::<S>(
                service_config,
                disk,
                dir,
                from,
            ) is Ok
        }),
{
    reveal(owed);
}

/// Where recovery goes on behind its snapshot, the disk stands in the way only
/// where no seq is left or the segment that is needed is there already.
pub proof fn law_reseating_is_refused_for_cause(
    disk: DiskModel,
    dir: Seq<u8>,
    from: Option<(u64, Machine)>,
)
    requires
        start_seq(from) < u64::MAX,
    ensures
        blocked(disk, dir, from) is None <==> !disk.has(
            crate::paths::numbered(dir, (start_seq(from) + 1) as u64, crate::paths::seg_ext()),
        ),
        blocked(disk, dir, from) matches Some(e) ==> e == JournalError::Io(IoError::AlreadyExists),
{
}

/// A node takes up time where its journal ends, or at the beginning.
pub proof fn law_time_goes_on_from_the_journal(frames: Seq<Record>, f: Record)
    ensures
        end_time(Seq::empty()) == 0,
        end_time(frames.push(f)) == f.time,
{
}

/// Opening leaves every file alone that is neither a segment nor a snapshot, and
/// where the journal reaches as far as the snapshot that recovery starts from, it
/// deletes exactly the snapshots that are named for a seq that was not reached.
pub proof fn law_opening_deletes_only_lost_history<S: Service>(
    service_config: S::Config,
    disk: DiskModel,
    dir: Seq<u8>,
    p: Seq<u8>,
)
    requires
        recover(disk, dir) is Ok,
        (recover(disk, dir)->Ok_0).torn is None,
        ({
            let from = anchor::<S>(service_config, mended(disk, dir), dir);
            start_seq(from) < (recover(disk, dir)->Ok_0).next
        }),
    ensures
        ({
            let from = anchor::<S>(service_config, mended(disk, dir), dir);
            let after = came_up::<S>(service_config, disk, dir);
            let snap = crate::paths::is_child(p, dir) && crate::paths::has_extension(
                p,
                crate::paths::snap_ext(),
            );
            &&& after.has(p) ==> disk.has(p) && after.files[p] == disk.files[p]
            &&& disk.has(p) && !snap ==> after.has(p)
            &&& disk.has(p) && snap ==> match crate::snapshot::snap_number(p, dir) {
                Some(n) => after.has(p) <==> n <= reached(disk, dir, from),
                None => after.has(p),
            }
        }),
{
    reveal(came_up);
    let from = anchor::<S>(service_config, mended(disk, dir), dir);
    crate::snapshot::law_purge_deletes_what_lies_beyond(
        mended(disk, dir),
        dir,
        reached(disk, dir, from),
        p,
    );
}

/// Where the journal ends before the snapshot that recovery starts from, it goes on
/// right behind that snapshot, and the snapshots beyond it are gone.
pub proof fn law_journal_goes_on_behind_the_snapshot<S: Service>(
    service_config: S::Config,
    disk: DiskModel,
    dir: Seq<u8>,
    seq: u64,
    m: Machine,
)
    requires
        anchor::<S>(service_config, mended(disk, dir), dir) == Some((seq, m)),
        0 < (recover(disk, dir)->Ok_0).next <= seq < u64::MAX,
    ensures
        came_up::<S>(service_config, disk, dir) == reseated(
            purged(mended(disk, dir), dir, seq),
            dir,
            false,
            (seq + 1) as u64,
        ),
{
    reveal(came_up);
}

/// A node tells which snapshot it started from, where it started from one, and how
/// many inputs it replayed behind it; it stands at least at that snapshot, and
/// nothing that it recovered waits for a majority.
pub proof fn law_node_tells_where_it_began<S: Service, T: TimeSource, St: Storage>(
    node: Node<S, T, St>,
    config: NodeConfig,
    service_config: S::Config,
    disk: DiskModel,
    from: Option<(u64, Machine)>,
)
    requires
        node.opened(config, service_config, disk, from),
    ensures
        from is None ==> node.how_opened().snapshot_seq is None,
        from matches Some((seq, _)) ==> {
            &&& seq > 0 ==> node.how_opened().snapshot_seq == Some(SeqNo(seq))
            &&& node.tip() >= seq
        },
        node.how_opened().inputs_replayed == inputs_after(
            (recover(disk, config.journal.dir@)->Ok_0).frames,
            match from {
                Some((seq, _)) => seq,
                None => 0,
            },
        ) as u64,
        config.quorum is None ==> node.quorum() is None,
        config.quorum matches Some((voters, id)) ==> (node.quorum() matches Some(q) && q.voters
            == voters && q.id == id && q.floor == node.tip() && q.pending.len() == 0
            && q.high_waters == Map::<u32, u64>::empty()),
{
}

} // verus!
