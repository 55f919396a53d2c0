//! Driving a server: votes, following, leading, promotion and failover.

use vstd::prelude::*;

use crate::codec::Encode;
use crate::election::ElectionOutcome;
use crate::epoch::EpochChange;
use crate::frame::{Frame, FrameError, FrameKind, Record, MAX_PAYLOAD_LEN};
use crate::journal::{held, recover, segments, seq_before};
use crate::node::{Node, NodeError, TimeSource};
use crate::persist::{is_durable, PersistentAcceptor};
use crate::seq::SeqNo;
use crate::server::admin::ServerStats;
use crate::server::{ballot_file, ballot_path, can_lead, caught_up, clones_equal, mirror,
    sound_journal, started, went_on, wires, ClusterConfig, FollowerMode, LeaderMode, Mode, Pumped,
    Relayed, Role, Server,
    ServerError, Submitted};
use crate::service::{all_encodable, encoded, Service};
use crate::storage::{Disk, DiskModel, Storage};
use crate::transport::reassembler::StreamModel;
use crate::transport::retransmit::{absorbed, answer, reply_wire, GapFill, PollStep};
use crate::transport::store::{chained, held_from, starts_at, FrameStore};
use crate::transport::TransportError;

verus! {

/// The epoch of a server that has seen a frame: a fence with a higher one is
/// adopted.
pub open spec fn adopted(epoch: u64, f: Record) -> u64 {
    if f.kind == FrameKind::EpochChange {
        match crate::epoch::read_fence(f.payload) {
            Ok(change) => if change.epoch > epoch {
                change.epoch
            } else {
                epoch
            },
            Err(_) => epoch,
        }
    } else {
        epoch
    }
}

/// The server to try behind `dead`, other than `own`.
pub open spec fn next_hint(dead: usize, own: usize, peers: usize) -> usize {
    let next = ((dead + 1) % peers as int) as usize;
    if next == own {
        ((next + 1) % peers as int) as usize
    } else {
        next
    }
}

impl<S: Service, T: TimeSource, St: Storage> Server<S, T, St> {
    pub closed spec fn index(&self) -> usize {
        self.idx
    }

    pub closed spec fn deployment(&self) -> ClusterConfig {
        self.config
    }

    pub closed spec fn setup(&self) -> S::Config {
        self.service_config
    }

    pub closed spec fn home(&self) -> Seq<u8> {
        self.dir@
    }

    /// The leadership epoch.
    pub closed spec fn rank(&self) -> u64 {
        self.epoch
    }

    pub closed spec fn leads(&self) -> bool {
        self.mode is Leader
    }

    pub closed spec fn follows(&self) -> bool {
        self.mode is Follower
    }

    /// A leader's node.
    pub closed spec fn sequencer(&self) -> Node<S, T, St> {
        self.mode->Leader_0.node
    }

    /// The seq a follower has journaled up to.
    pub closed spec fn journaled(&self) -> u64 {
        self.mode->Follower_0.applied.0
    }

    /// A follower's disk.
    pub closed spec fn disk(&self) -> DiskModel {
        self.mode->Follower_0.storage.view()
    }

    pub closed spec fn disk_reliable(&self) -> bool {
        self.mode->Follower_0.storage.reliable()
    }

    /// A follower's replica: its state and the seq it is at.
    pub closed spec fn replica(&self) -> (Seq<u8>, u64) {
        (self.mode->Follower_0.replica.state(), self.mode->Follower_0.replica.tip())
    }

    /// The seq that a leader announces next: everything before it was relayed.
    pub closed spec fn announced(&self) -> u64 {
        self.mode->Leader_0.publisher.next()
    }

    /// The frames that a leader keeps in memory for retransmission.
    pub closed spec fn recent(&self) -> Seq<Record> {
        self.mode->Leader_0.store.primary.held()
    }

    /// The frames in the journal that a leader rewinds to.
    pub closed spec fn rewound(&self) -> Seq<Record> {
        self.mode->Leader_0.store.secondary.journaled()
    }

    /// That journal can be read.
    pub closed spec fn rewinds(&self) -> bool {
        self.mode->Leader_0.store.secondary.answers()
    }

    /// What a follower has received.
    pub closed spec fn stream(&self) -> StreamModel {
        self.mode->Follower_0.receiver.model()
    }

    /// When a follower last heard of its leader, and at which packet count.
    pub closed spec fn heard(&self) -> (u64, u64) {
        (self.mode->Follower_0.detector.since(), self.mode->Follower_0.detector.seen())
    }

    /// How long a follower waits for its leader.
    pub closed spec fn patience(&self) -> u64 {
        self.mode->Follower_0.detector.patience()
    }

    /// The highest epoch promised in a vote.
    pub closed spec fn promise(&self) -> u64 {
        self.acceptor.promise()
    }

    /// The high-water that votes report.
    pub closed spec fn mark(&self) -> u64 {
        self.acceptor.mark()
    }

    pub closed spec fn ballot_disk(&self) -> DiskModel {
        self.ballots.view()
    }

    pub closed spec fn ballots_reliable(&self) -> bool {
        self.ballots.reliable()
    }

    /// The promise is on disk.
    pub open spec fn votes_durably(&self) -> bool {
        is_durable(self.ballot_disk(), ballot_path(self.home()), self.promise())
    }

    pub closed spec fn wf(&self) -> bool {
        &&& self.idx < self.config.peers
        &&& self.config.leader_hint < self.config.peers
        &&& self.acceptor.path() == ballot_path(self.dir@)
        &&& match self.mode {
            Mode::Leader(l) => l.wf() && l.publisher.id() == self.config.session,
            Mode::Follower(f) => {
                &&& f.journal.dir() == self.dir@
                &&& f.replica.config() == self.service_config
            },
            Mode::Transitioning => true,
        }
    }

    /// What is on the disk is what the server takes it for. It stays so until
    /// the disk fails it.
    pub closed spec fn intact(&self) -> bool {
        match self.mode {
            Mode::Leader(l) => l.intact(),
            Mode::Follower(f) => f.intact(),
            Mode::Transitioning => true,
        }
    }

    /// Which server of which deployment this is has not changed, nor its
    /// votes.
    pub open spec fn same_server(&self, before: &Self) -> bool {
        &&& self.index() == before.index()
        &&& self.setup() == before.setup()
        &&& self.home() == before.home()
        &&& self.promise() == before.promise()
        &&& self.ballot_disk() == before.ballot_disk()
        &&& self.ballots_reliable() == before.ballots_reliable()
    }

    /// The follower is where it was, but for what it received.
    pub open spec fn same_follower(&self, before: &Self) -> bool {
        &&& self.follows() == before.follows()
        &&& self.leads() == before.leads()
        &&& self.rank() == before.rank()
        &&& self.deployment() == before.deployment()
        &&& self.mark() == before.mark()
        &&& self.journaled() == before.journaled()
        &&& self.disk() == before.disk()
        &&& self.disk_reliable() == before.disk_reliable()
        &&& self.replica() == before.replica()
        &&& self.patience() == before.patience()
    }

    /// Opens a follower: recovers its journal and its promise. Every server
    /// starts as a follower. `ballots` is where votes are recorded.
    pub fn open_follower(
        idx: usize,
        config: ClusterConfig,
        service_config: S::Config,
        dir: &[u8],
        storage: St,
        ballots: St,
        now: u64,
    ) -> (r: Result<Self, ServerError>)
        requires
            idx < config.peers,
            config.leader_hint < config.peers,
        ensures
            r matches Ok(s) ==> {
                let found = recover(storage.view(), dir@)->Ok_0;
                &&& recover(storage.view(), dir@) is Ok
                &&& s.follows() && !s.leads()
                &&& s.index() == idx
                &&& s.deployment() == config
                &&& s.setup() == service_config
                &&& s.home() == dir@
                &&& s.rank() == 1
                &&& s.journaled() == seq_before(found.next)
                &&& s.disk() == crate::journal::after_recovery(storage.view(), dir@, found)
                &&& s.disk_reliable() == storage.reliable()
                &&& s.replica() == caught_up::<S>(
                    service_config,
                    S::genesis_state(service_config),
                    0,
                    found.frames,
                )
                &&& s.stream().next == s.journaled() + 1
                &&& s.stream().announced == s.journaled() + 1
                &&& s.stream().pending.len() == 0
                &&& s.stream().packets == 0
                &&& s.stream().session is None
                &&& s.heard() == (now, 0u64)
                &&& s.patience() == config.patience(idx)
                &&& crate::persist::remembered(ballots.view(), ballot_path(dir@)) == Ok::<
                    u64,
                    crate::persist::PersistError,
                >(s.promise())
                &&& s.mark() == s.journaled()
                &&& s.ballot_disk() == ballots.view()
                &&& s.ballots_reliable() == ballots.reliable()
                &&& s.wf()
                &&& sound_journal(storage.view(), dir@) ==> s.intact()
            },
            storage.reliable() && ballots.reliable() ==> (r is Ok <==> crate::persist::remembered(
                ballots.view(),
                ballot_path(dir@),
            ) is Ok && recover(storage.view(), dir@) is Ok && (recover(
                storage.view(),
                dir@,
            )->Ok_0).next < u64::MAX),
            ballots.reliable() ==> match crate::persist::remembered(
                ballots.view(),
                ballot_path(dir@),
            ) {
                Ok(_) => r matches Err(e) ==> e is Node,
                Err(e) => r == Err::<Self, ServerError>(ServerError::Persist(e)),
            },
    {
        let path = ballot_file(dir);
        let mut acceptor = match PersistentAcceptor::open(path.as_slice(), &ballots) {
            Ok(a) => a,
            Err(e) => {
                return Err(ServerError::Persist(e));
            },
        };
        let timeout: u64 = config.timeout_of(idx);
        let follower = FollowerMode::build(dir, &service_config, storage, timeout, now)?;
        acceptor.observe_seq(follower.applied);
        Ok(
            Server {
                idx,
                config,
                service_config,
                dir: crate::paths::copy_bytes(dir),
                acceptor,
                ballots,
                epoch: 1,
                mode: Mode::Follower(follower),
            },
        )
    }

    /// The server's role right now.
    pub fn role(&self) -> (r: Role)
        ensures
            r == (if self.leads() {
                Role::Leader
            } else {
                Role::Follower
            }),
    {
        match self.mode {
            Mode::Leader(_) => Role::Leader,
            _ => Role::Follower,
        }
    }

    /// The current epoch.
    pub fn epoch(&self) -> (r: u64)
        ensures
            r == self.rank(),
    {
        self.epoch
    }

    /// The server that gaps are filled from.
    pub fn leader_hint(&self) -> (r: usize)
        ensures
            r == self.deployment().leader_hint,
    {
        self.config.leader_hint
    }

    /// Fills gaps from another server from now on.
    pub fn set_leader_hint(&mut self, leader_idx: usize)
        requires
            old(self).wf(),
            leader_idx < old(self).deployment().peers,
        ensures
            final(self).wf(),
            final(self).intact() == old(self).intact(),
            final(self).same_server(old(self)),
            final(self).deployment() == (ClusterConfig {
                leader_hint: leader_idx,
                ..old(self).deployment()
            }),
            final(self).rank() == old(self).rank(),
            final(self).leads() == old(self).leads(),
            final(self).follows() == old(self).follows(),
            old(self).leads() ==> final(self).sequencer() == old(self).sequencer(),
            final(self).mark() == old(self).mark(),
            final(self).journaled() == old(self).journaled(),
            final(self).replica() == old(self).replica(),
            final(self).heard() == old(self).heard(),
            final(self).patience() == old(self).patience(),
            final(self).disk() == old(self).disk(),
            final(self).disk_reliable() == old(self).disk_reliable(),
            final(self).stream() == old(self).stream(),
    {
        self.config.leader_hint = leader_idx;
    }

    /// The highest seq sequenced or applied.
    pub fn seq(&self) -> (r: SeqNo)
        ensures
            r.0 == (if self.leads() {
                self.sequencer().tip()
            } else if self.follows() {
                self.journaled()
            } else {
                0
            }),
    {
        match &self.mode {
            Mode::Leader(l) => l.node.seq(),
            Mode::Follower(f) => f.applied,
            Mode::Transitioning => SeqNo(0),
        }
    }

    /// The state at one moment, for the metrics.
    pub fn stats(&self) -> (r: ServerStats)
        requires
            self.wf(),
        ensures
            r.node == self.index(),
            r.epoch == self.rank(),
            r.role@ == (if self.leads() {
                "leader"@
            } else {
                "follower"@
            }),
            self.leads() ==> {
                let node = self.sequencer();
                let all = crate::snapshot::candidates(node.disk(), node.dir(), node.tip());
                &&& r.seq == node.tip()
                &&& r.lag == 0
                &&& self.intact() && node.reliable() ==> r.snapshot_seq == (if all.len() > 0 {
                    all[0].seq
                } else {
                    0
                })
                &&& node.reliable() ==> r.journal_segments == segments(
                    node.disk(),
                    node.dir(),
                ).len()
            },
            self.follows() ==> {
                let known = self.stream().announced;
                &&& r.seq == self.journaled()
                &&& r.lag == (if known > self.journaled() + 1 {
                    known - 1 - self.journaled()
                } else {
                    0
                })
                &&& r.snapshot_seq == 0
                &&& self.disk_reliable() ==> r.journal_segments == segments(
                    self.disk(),
                    self.home(),
                ).len()
            },
            !self.leads() && !self.follows() ==> r.seq == 0 && r.lag == 0 && r.snapshot_seq == 0
                && r.journal_segments == 0,
    {
        match &self.mode {
            Mode::Leader(l) => {
                let snapshot_seq: u64 = match l.node.latest_snapshot_seq() {
                    Some(s) => s.0,
                    None => 0,
                };
                ServerStats {
                    node: self.idx,
                    role: "leader",
                    epoch: self.epoch,
                    seq: l.node.seq().0,
                    lag: 0,
                    snapshot_seq,
                    journal_segments: l.node.journal_segments() as u64,
                }
            },
            Mode::Follower(f) => {
                let high: u64 = f.receiver.announced_high_water().0;
                ServerStats {
                    node: self.idx,
                    role: "follower",
                    epoch: self.epoch,
                    seq: f.applied.0,
                    lag: high.saturating_sub(f.applied.0),
                    snapshot_seq: 0,
                    journal_segments: f.journal.segment_count(&f.storage) as u64,
                }
            },
            Mode::Transitioning => ServerStats {
                node: self.idx,
                role: "follower",
                epoch: self.epoch,
                seq: 0,
                lag: 0,
                snapshot_seq: 0,
                journal_segments: 0,
            },
        }
    }

    /// The bytes of the state: the leader's, or the follower's copy.
    pub fn snapshot_bytes(&self) -> (r: Vec<u8>)
        ensures
            r@ == (if self.leads() {
                self.sequencer().machine().state
            } else if self.follows() {
                self.replica().0
            } else {
                Seq::empty()
            }),
    {
        let mut out: Vec<u8> = Vec::new();
        match &self.mode {
            Mode::Leader(l) => {
                l.node.service().snapshot().encode(&mut out);
                assert(out@ =~= self.sequencer().machine().state);
            },
            Mode::Follower(f) => {
                f.replica.service().snapshot().encode(&mut out);
                assert(out@ =~= self.replica().0);
            },
            Mode::Transitioning => {
                assert(out@ =~= Seq::empty());
            },
        }
        out
    }

    /// Answers a vote request; see [`crate::votes::answer_vote`].
    pub fn on_vote(&mut self, request: &[u8]) -> (r: Option<Vec<u8>>)
        requires
            old(self).wf(),
        ensures
            final(self).wf(),
            final(self).intact() == old(self).intact(),
            final(self).leads() == old(self).leads(),
            old(self).leads() ==> final(self).sequencer() == old(self).sequencer(),
            final(self).same_follower(old(self)),
            final(self).heard() == old(self).heard(),
            final(self).stream() == old(self).stream(),
            final(self).home() == old(self).home(),
            match crate::votes::read_request(request@) {
                None => r is None && final(self).promise() == old(self).promise()
                    && final(self).votes_durably() == old(self).votes_durably(),
                Some(req) => {
                    &&& final(self).promise() == crate::election::promised_after(
                        old(self).promise(),
                        req.epoch,
                    )
                    &&& r matches Some(bytes) ==> {
                        let reply = crate::election::vote(
                            old(self).promise(),
                            old(self).mark(),
                            req.epoch,
                        );
                        &&& bytes@ == crate::votes::reply_wire(reply)
                        &&& reply !is Reject || old(self).votes_durably()
                            ==> final(self).votes_durably()
                    }
                    &&& old(self).ballots_reliable() ==> r is Some
                },
            },
    {
        crate::votes::answer_vote(&mut self.acceptor, &mut self.ballots, request)
    }

    /// A frame was journaled and applied.
    pub open spec fn took(&self, before: &Self, f: Record) -> bool {
        &&& f.seq == before.journaled() + 1
        &&& self.journaled() == f.seq
        &&& self.replica() == caught_up::<S>(
            before.setup(),
            before.replica().0,
            before.replica().1,
            seq![f],
        )
        &&& self.mark() == (if f.seq > before.mark() {
            f.seq
        } else {
            before.mark()
        })
        &&& self.rank() == adopted(before.rank(), f)
    }

    /// Nothing was applied, and nothing taken note of.
    pub open spec fn passed_by(&self, before: &Self) -> bool {
        &&& self.journaled() == before.journaled()
        &&& self.replica() == before.replica()
        &&& self.mark() == before.mark()
        &&& self.rank() == before.rank()
    }

    /// The journal holds the frame behind what it held.
    pub open spec fn kept(&self, before: &Self, f: Record) -> bool {
        held(self.disk(), self.home()).frames == held(
            before.disk(),
            before.home(),
        ).frames.push(f)
    }

    /// Journals a frame that comes next, applies it, and takes note of it.
    fn take(&mut self, frame: &Frame) -> (r: Result<bool, ServerError>)
        requires
            old(self).wf(),
            old(self).follows(),
        ensures
            final(self).same_server(old(self)),
            final(self).follows(),
            !final(self).leads(),
            final(self).deployment() == old(self).deployment(),
            final(self).stream() == old(self).stream(),
            final(self).patience() == old(self).patience(),
            final(self).heard() == old(self).heard(),
            final(self).disk_reliable() == old(self).disk_reliable(),
            final(self).wf(),
            frame@.seq != old(self).journaled() + 1 ==> r == Ok::<bool, ServerError>(false)
                && final(self).intact() == old(self).intact() && final(self).same_follower(
                old(self),
            ),
            frame@.seq == old(self).journaled() + 1 ==> {
                &&& r matches Ok(done) ==> done && final(self).took(old(self), frame@)
                &&& r is Ok && old(self).intact() ==> final(self).intact()
                    && final(self).kept(old(self), frame@)
                &&& r matches Err(e) ==> (!frame@.valid() || e is Node)
                    && final(self).passed_by(old(self))
                &&& old(self).intact() && old(self).disk_reliable() && frame@.valid() && frame@.seq
                    < u64::MAX ==> r is Ok
            },
    {
        let seq: SeqNo = frame.seq;
        if frame.payload.len() > MAX_PAYLOAD_LEN as usize {
            if let Mode::Follower(f) = &self.mode {
                if f.applied.0 != u64::MAX && seq.0 == f.applied.0 + 1 {
                    return Err(
                        ServerError::Transport(
                            TransportError::Frame(
                                FrameError::PayloadTooLarge(frame.payload.len() as u32),
                            ),
                        ),
                    );
                }
            }
            return Ok(false);
        }
        if let Mode::Follower(f) = &mut self.mode {
            if f.applied.0 == u64::MAX || seq.0 != f.applied.0 + 1 {
                return Ok(false);
            }
            let ghost disk = f.storage.view();
            let ghost sound = f.intact();
            proof {
                crate::frame::lemma_wire_len(frame@);
                if sound {
                    assert(f.journal.needs_roll(frame@.wire().len()) ==> !disk.has(
                        crate::paths::numbered(f.journal.dir(), seq.0, crate::paths::seg_ext()),
                    ));
                }
            }
            if let Err(e) = f.journal.append(&mut f.storage, frame) {
                return Err(ServerError::Node(NodeError::Journal(e)));
            }
            proof {
                f.journal.lemma_ready(f.storage.view(), f.storage.view());
            }
            mirror(&mut f.replica, frame);
            f.applied = seq;
        }
        self.acceptor.observe_seq(seq);
        if frame.kind == FrameKind::EpochChange {
            if let Ok(change) = EpochChange::from_frame(frame) {
                if change.epoch > self.epoch {
                    self.epoch = change.epoch;
                }
            }
        }
        Ok(true)
    }

    /// Takes in one datagram of the feed. A leader has no use for it.
    pub fn on_packet(&mut self, bytes: &[u8]) -> (r: Result<(), ServerError>)
        requires
            old(self).wf(),
        ensures
            final(self).wf(),
            final(self).intact() == old(self).intact(),
            final(self).same_server(old(self)),
            final(self).same_follower(old(self)),
            final(self).heard() == old(self).heard(),
            old(self).leads() ==> final(self).sequencer() == old(self).sequencer(),
            !old(self).follows() ==> r is Ok && final(self).stream() == old(self).stream(),
            old(self).follows() ==> match crate::transport::packet::read_packet(bytes@) {
                Err(e) => r == Err::<(), ServerError>(ServerError::Transport(e))
                    && final(self).stream() == old(self).stream(),
                Ok(p) => if old(self).stream().welcomes(p.session()) {
                    r is Ok && final(self).stream() == old(self).stream().ingested(p)
                } else {
                    &&& final(self).stream() == old(self).stream()
                    &&& r == Err::<(), ServerError>(
                        ServerError::Transport(
                            TransportError::SessionMismatch {
                                expected: old(self).stream().session->0,
                                got: p.session(),
                            },
                        ),
                    )
                },
            },
    {
        if let Mode::Follower(f) = &mut self.mode {
            if let Err(e) = f.receiver.on_packet(bytes) {
                return Err(ServerError::Transport(e));
            }
        }
        Ok(())
    }

    /// Takes in the answer to a gap-fill request.
    pub fn on_reply(&mut self, fill: &mut GapFill, reply: &[u8]) -> (r: Result<(), ServerError>)
        requires
            old(self).wf(),
        ensures
            final(self).wf(),
            final(self).intact() == old(self).intact(),
            final(self).same_server(old(self)),
            final(self).same_follower(old(self)),
            final(self).heard() == old(self).heard(),
            old(self).leads() ==> final(self).sequencer() == old(self).sequencer(),
            !old(self).follows() ==> r is Ok && *final(fill) == *old(fill),
            old(self).follows() ==> final(self).stream() == absorbed(
                old(self).stream(),
                reply@,
                0,
            ).0,
            old(self).follows() ==> match absorbed(old(self).stream(), reply@, 0).1 {
                Err(e) => r == Err::<(), ServerError>(ServerError::Transport(e))
                    && *final(fill) == *old(fill),
                Ok(served) => if served == 0 {
                    &&& *final(fill) == *old(fill)
                    &&& r == Err::<(), ServerError>(
                        ServerError::Transport(
                            TransportError::GapUnrecoverable {
                                from: old(fill).wanted.0,
                                count: old(fill).remaining,
                            },
                        ),
                    )
                } else {
                    r is Ok && *final(fill) == old(fill).after(served)
                },
            },
    {
        if let Mode::Follower(f) = &mut self.mode {
            if let Err(e) = f.receiver.on_reply(fill, reply) {
                return Err(ServerError::Transport(e));
            }
        }
        Ok(())
    }

    /// One step of following: journals and applies the next frame in order, or
    /// says which gap is to be filled. A leader does nothing.
    pub fn pump(&mut self) -> (r: Result<Pumped, ServerError>)
        requires
            old(self).wf(),
        ensures
            final(self).wf(),
            final(self).same_server(old(self)),
            final(self).leads() == old(self).leads(),
            final(self).follows() == old(self).follows(),
            final(self).deployment() == old(self).deployment(),
            final(self).heard() == old(self).heard(),
            final(self).patience() == old(self).patience(),
            final(self).disk_reliable() == old(self).disk_reliable(),
            !old(self).follows() ==> r == Ok::<Pumped, ServerError>(Pumped::Idle)
                && final(self).intact() == old(self).intact() && (old(self).leads()
                ==> final(self).sequencer() == old(self).sequencer()),
            old(self).follows() ==> {
                let m = old(self).stream();
                if m.deliverable() {
                    let f = m.pending[0];
                    &&& final(self).stream() == m.delivered()
                    &&& if f.seq == old(self).journaled() + 1 {
                        &&& r matches Ok(p) ==> p == Pumped::Delivered(true) && final(self).took(
                            old(self),
                            f,
                        )
                        &&& r is Ok && old(self).intact() ==> final(self).intact()
                            && final(self).kept(old(self), f)
                        &&& r matches Err(e) ==> (!f.valid() || e is Node)
                            && final(self).passed_by(old(self))
                        &&& old(self).intact() && old(self).disk_reliable() && f.valid() && f.seq
                            < u64::MAX ==> r is Ok
                    } else {
                        &&& r == Ok::<Pumped, ServerError>(Pumped::Delivered(false))
                        &&& final(self).intact() == old(self).intact()
                        &&& final(self).same_follower(old(self))
                    }
                } else {
                    &&& final(self).intact() == old(self).intact()
                    &&& final(self).same_follower(old(self))
                    &&& final(self).stream() == m
                    &&& if m.gap_end() <= m.next {
                        r == Ok::<Pumped, ServerError>(Pumped::Idle)
                    } else {
                        r matches Ok(Pumped::Fill(fill)) && fill.wanted.0 == m.next
                            && fill.remaining == m.gap_end() - m.next && (m.session matches Some(s)
                            ==> fill.session == s)
                    }
                }
            },
    {
        let mut next: Option<Frame> = None;
        if let Mode::Follower(f) = &mut self.mode {
            match f.receiver.step(true) {
                Err(e) => {
                    return Err(ServerError::Transport(e));
                },
                Ok(PollStep::Wait) => {
                    return Ok(Pumped::Idle);
                },
                Ok(PollStep::Fill(fill)) => {
                    return Ok(Pumped::Fill(fill));
                },
                Ok(PollStep::Deliver(frame)) => {
                    next = Some(frame);
                },
            }
        }
        match next {
            None => Ok(Pumped::Idle),
            Some(frame) => {
                let done: bool = self.take(&frame)?;
                Ok(Pumped::Delivered(done))
            },
        }
    }

    /// Takes note of whether the leader has shown life.
    pub fn observe(&mut self, now: u64)
        requires
            old(self).wf(),
        ensures
            final(self).wf(),
            final(self).intact() == old(self).intact(),
            final(self).same_server(old(self)),
            final(self).same_follower(old(self)),
            final(self).stream() == old(self).stream(),
            old(self).leads() ==> final(self).sequencer() == old(self).sequencer(),
            old(self).follows() ==> final(self).heard() == (if old(self).stream().packets
                > old(self).heard().1 {
                (now, old(self).stream().packets)
            } else {
                old(self).heard()
            }),
    {
        if let Mode::Follower(f) = &mut self.mode {
            let seen: u64 = f.receiver.packets_seen();
            f.detector.observe(seen, now);
        }
    }

    /// Whether this follower presumes its leader dead.
    pub open spec fn suspicious(&self, now: u64) -> bool {
        self.follows() && (now - self.heard().0 >= self.patience() || self.patience() == 0)
    }

    /// Whether this follower presumes its leader dead: no packet came in for
    /// as long as it waits.
    pub fn leader_suspected(&self, now: u64) -> (r: bool)
        ensures
            r == self.suspicious(now),
    {
        match &self.mode {
            Mode::Follower(f) => f.detector.suspects(now),
            _ => false,
        }
    }

    /// Sequences an input (leader only). Returns its seq, the outputs, and the
    /// packets to send to every other server.
    pub fn submit(&mut self, input: &S::Input) -> (r: Result<Submitted<S::Output>, ServerError>)
        requires
            old(self).wf(),
            input.encodable(),
            input.bytes().len() <= MAX_PAYLOAD_LEN,
        ensures
            final(self).wf(),
            final(self).same_server(old(self)),
            final(self).rank() == old(self).rank(),
            final(self).deployment() == old(self).deployment(),
            final(self).leads() == old(self).leads(),
            !old(self).leads() ==> r == Err::<Submitted<S::Output>, ServerError>(
                ServerError::WrongRole("submit requires leader"),
            ) && final(self).intact() == old(self).intact() && final(self).same_follower(old(self)),
            old(self).leads() ==> (r matches Err(e) ==> e is Node),
            r matches Ok(done) ==> {
                &&& done.seq.0 == old(self).sequencer().tip() + 1
                &&& all_encodable(done.outputs@)
                &&& old(self).intact() ==> final(self).intact() && went_on(
                    old(self).sequencer(),
                    final(self).sequencer(),
                    FrameKind::Input,
                    input.bytes(),
                    Relayed {
                        session: old(self).deployment().session,
                        packets: wires(done.packets@),
                        before: old(self).recent(),
                        recent: final(self).recent(),
                    },
                    encoded(done.outputs@),
                )
            },
            old(self).leads() && old(self).intact() && (forall|now: u64, after: T| #[trigger]
                old(self).sequencer().clock().reads(after, now) ==> old(self).sequencer().smooth(
                    FrameKind::Input,
                    input.bytes(),
                    old(self).sequencer().stamp(now),
                )) ==> r is Ok,
            r is Err && old(self).leads() ==> final(self).sequencer().goes_on_from(
                &old(self).sequencer(),
            ),
    {
        if let Mode::Leader(l) = &mut self.mode {
            let ghost before = l.node;
            let ghost sent = l.relayed();
            let ghost sound = l.intact();
            let done = l.node.submit(input);
            proof {
                assert(before == old(self).sequencer());
                crate::server::lemma_more_waits(
                    before.waiting(),
                    sent,
                    before.tip(),
                    l.node.waiting(),
                    l.node.tip(),
                );
            }
            match done {
                Err(e) => {
                    return Err(ServerError::Node(e));
                },
                Ok((seq, outputs)) => {
                    let ghost middle = l.node;
                    let ghost had = l.store.primary.held();
                    let ghost now: u64 = if sound {
                        choose|now: u64| #[trigger]
                            middle.submitted(
                                &before,
                                input.bytes(),
                                Some(encoded(outputs@)),
                                now,
                            )
                    } else {
                        0
                    };
                    let ghost p = crate::node::advanced::<S>(
                        before.rules(),
                        before.progress(),
                        FrameKind::Input,
                        input.bytes(),
                        before.stamp(now),
                    );
                    proof {
                        if sound {
                            assert(middle.moved(&before, p, before.stamp(now)));
                            assert(middle.waiting()[0] =~= p.frames);
                        }
                    }
                    let packets = l.relay(Ghost(sent));
                    proof {
                        if sound {
                            assert(before.clock().reads(l.node.clock(), now));
                            assert(went_on(
                                before,
                                l.node,
                                FrameKind::Input,
                                input.bytes(),
                                Relayed {
                                    session: l.publisher.id(),
                                    packets: wires(packets@),
                                    before: had,
                                    recent: l.store.primary.held(),
                                },
                                encoded(outputs@),
                            ));
                        }
                    }
                    return Ok(Submitted { seq, outputs, packets });
                },
            }
        }
        Err(ServerError::WrongRole("submit requires leader"))
    }

    /// The packet by which a leader shows every other server that it is alive;
    /// nothing from a follower.
    pub fn heartbeat(&self) -> (r: Option<Vec<u8>>)
        requires
            self.wf(),
        ensures
            r is Some <==> self.leads(),
            r matches Some(bytes) ==> bytes@ == heartbeat_wire(
                self.deployment().session,
                self.announced(),
            ),
            self.leads() && self.intact() ==> self.announced() == self.sequencer().tip() + 1,
    {
        match &self.mode {
            Mode::Leader(l) => {
                Some(l.publisher.heartbeat())
            },
            _ => None,
        }
    }

    /// The servers that packets go to: all others.
    pub fn audience(&self) -> (r: Vec<usize>)
        ensures
            r@ == others(self.index(), self.deployment().peers),
    {
        let mut out: Vec<usize> = Vec::new();
        let n: usize = self.config.peers;
        let mut i: usize = 0;
        while i < n
            invariant
                i <= n,
                n == self.config.peers,
                out@ == others(self.idx, i),
            decreases n - i,
        {
            if i != self.idx {
                out.push(i);
            }
            i = i + 1;
        }
        out
    }

    /// Answers a retransmission request (leader only) from recent memory, else
    /// from the journal.
    pub fn retransmit(&mut self, request: &[u8]) -> (r: Result<Vec<u8>, ServerError>)
        requires
            old(self).wf(),
        ensures
            final(self).wf(),
            final(self).intact() == old(self).intact(),
            final(self).same_server(old(self)),
            final(self).deployment() == old(self).deployment(),
            final(self).rank() == old(self).rank(),
            final(self).leads() == old(self).leads(),
            final(self).follows() == old(self).follows(),
            old(self).leads() ==> final(self).sequencer() == old(self).sequencer()
                && final(self).recent() == old(self).recent(),
            !old(self).leads() ==> *final(self) == *old(self) && r == Err::<Vec<u8>, ServerError>(
                ServerError::WrongRole("retransmit requires leader"),
            ),
            old(self).leads() ==> match crate::transport::packet::read_request(request@) {
                Err(e) => r == Err::<Vec<u8>, ServerError>(ServerError::Transport(e)),
                Ok(q) => if q.session != old(self).deployment().session {
                    r == Err::<Vec<u8>, ServerError>(
                        ServerError::Transport(
                            TransportError::SessionMismatch {
                                expected: old(self).deployment().session,
                                got: q.session,
                            },
                        ),
                    )
                } else {
                    &&& r is Ok
                    &&& starts_at(
                        held_from(old(self).recent(), q.from.0, q.count as nat),
                        q.from.0,
                    ) || old(self).rewinds() ==> r->Ok_0@ == reply_wire(
                        q.session,
                        chained(old(self).recent(), old(self).rewound(), q.from.0, q.count as nat),
                    )
                },
            },
    {
        if let Mode::Leader(l) = &mut self.mode {
            let ghost before = l.store;
            let answered = answer(self.config.session, &mut l.store, request);
            proof {
                let held = before.primary.held();
                let nothing = Seq::<Record>::empty();
                assert(held + nothing =~= held);
                assert(l.store.primary.held() + nothing =~= l.store.primary.held());
            }
            return match answered {
                Ok(bytes) => Ok(bytes),
                Err(e) => Err(ServerError::Transport(e)),
            };
        }
        Err(ServerError::WrongRole("retransmit requires leader"))
    }
}

impl<S: Service, T: TimeSource, St: Storage> Server<S, T, St> where S::Config: Clone {
    /// The epoch to stand for.
    pub fn bid(&self) -> (r: u64)
        requires
            self.rank() < u64::MAX,
        ensures
            r == self.rank() + 1,
    {
        self.epoch + 1
    }

    /// The server has come to lead `epoch`, from the follower's journal on.
    pub open spec fn took_over(
        &self,
        before: &Self,
        epoch: u64,
        packets: Seq<Seq<u8>>,
    ) -> bool {
        &&& self.wf()
        &&& self.leads() && !self.follows()
        &&& self.rank() == epoch
        &&& before.intact() ==> self.intact() && started::<S, T, St>(
            self.sequencer(),
            epoch,
            before.home(),
            before.setup(),
            before.disk(),
            Relayed {
                session: before.deployment().session,
                packets,
                before: Seq::empty(),
                recent: self.recent(),
            },
        )
    }

    /// The follower's journal and disk are fit for leading `epoch`.
    pub open spec fn fit_to_lead(&self, epoch: u64) -> bool {
        self.disk_reliable() && can_lead::<S>(self.setup(), self.disk(), self.home(), epoch)
    }

    /// The leader rewinds to the frames of the journal on the disk `rewind`.
    pub open spec fn rewinds_on(&self, rewind: St) -> bool {
        let found = recover(rewind.view(), self.home());
        &&& self.rewinds() == (rewind.reliable() && found is Ok)
        &&& self.rewound() == (found->Ok_0).frames
    }

    /// Leads `epoch`: opens a node on the follower's journal, which rebuilds
    /// the replicated state, and fences the epoch. Returns the packets to send
    /// to every other server.
    fn lead(&mut self, epoch: u64, clock: T, rewind: St) -> (r: Result<Vec<Vec<u8>>, ServerError>)
        requires
            old(self).wf(),
            old(self).follows(),
            clones_equal::<S::Config>(),
        ensures
            final(self).same_server(old(self)),
            final(self).deployment() == old(self).deployment(),
            final(self).mark() == old(self).mark(),
            r matches Ok(packets) ==> final(self).took_over(old(self), epoch, wires(packets@))
                && final(self).rewinds_on(rewind),
            r matches Err(e) ==> e is Node && final(self).wf() && !final(self).leads()
                && !final(self).follows() && final(self).rank() == old(self).rank(),
            old(self).fit_to_lead(epoch) ==> r is Ok,
    {
        let mut mode: Mode<S, T, St> = Mode::Transitioning;
        std::mem::swap(&mut mode, &mut self.mode);
        if let Mode::Follower(f) = mode {
            let storage = f.storage;
            proof {
                if f.intact() {
                    f.journal.lemma_wf(storage.view());
                }
            }
            let setup = self.service_config.clone();
            assert(cloned(self.service_config, setup));
            let (leader, packets) = LeaderMode::start(
                epoch,
                self.config.session,
                self.dir.as_slice(),
                setup,
                clock,
                storage,
                rewind,
            )?;
            self.mode = Mode::Leader(leader);
            self.epoch = epoch;
            return Ok(packets);
        }
        assert(false);
        Err(ServerError::WrongRole("promote requires follower"))
    }

    /// Starts as the first leader of a fresh deployment.
    pub fn start_as_leader(&mut self, clock: T, rewind: St) -> (r: Result<
        Vec<Vec<u8>>,
        ServerError,
    >)
        requires
            old(self).wf(),
            clones_equal::<S::Config>(),
        ensures
            final(self).wf(),
            final(self).same_server(old(self)),
            final(self).deployment() == old(self).deployment(),
            !old(self).follows() ==> *final(self) == *old(self) && r == Err::<
                Vec<Vec<u8>>,
                ServerError,
            >(ServerError::WrongRole("start requires follower")),
            old(self).follows() ==> {
                &&& r matches Ok(packets) ==> final(self).took_over(old(self), 1, wires(packets@))
                    && final(self).rewinds_on(rewind)
                &&& r matches Err(e) ==> e is Node && !final(self).leads() && !final(self).follows()
                &&& old(self).fit_to_lead(1) ==> r is Ok
            },
    {
        let following: bool = match &self.mode {
            Mode::Follower(_) => true,
            _ => false,
        };
        if !following {
            return Err(ServerError::WrongRole("start requires follower"));
        }
        self.lead(1, clock, rewind)
    }

    /// Concludes an election for the epoch [`Self::bid`]. A winner that holds
    /// everything the majority holds becomes the leader. One that is no follower
    /// stays what it is.
    pub fn promote(&mut self, outcome: ElectionOutcome, clock: T, rewind: St) -> (r: Result<
        Vec<Vec<u8>>,
        ServerError,
    >)
        requires
            old(self).wf(),
            old(self).rank() < u64::MAX,
            clones_equal::<S::Config>(),
        ensures
            final(self).wf(),
            final(self).same_server(old(self)),
            final(self).deployment() == old(self).deployment(),
            match outcome {
                ElectionOutcome::Won { epoch, sync_to } => {
                    if !old(self).follows() {
                        &&& r == Err::<Vec<Vec<u8>>, ServerError>(
                            ServerError::WrongRole("promote requires follower"),
                        )
                        &&& *final(self) == *old(self)
                    } else if old(self).journaled() < sync_to.0 {
                        &&& r == Err::<Vec<Vec<u8>>, ServerError>(
                            ServerError::ElectionLost { highest_promised: epoch },
                        )
                        &&& final(self).same_follower(old(self))
                        &&& final(self).stream() == old(self).stream()
                        &&& final(self).heard() == old(self).heard()
                    } else {
                        &&& r matches Ok(packets) ==> final(self).took_over(
                            old(self),
                            epoch,
                            wires(packets@),
                        ) && final(self).rewinds_on(rewind)
                        &&& r matches Err(e) ==> e is Node && !final(self).leads()
                            && !final(self).follows()
                        &&& old(self).fit_to_lead(epoch) ==> r is Ok
                    }
                },
                ElectionOutcome::Lost { highest_promised } => {
                    &&& r == Err::<Vec<Vec<u8>>, ServerError>(
                        ServerError::ElectionLost { highest_promised },
                    )
                    &&& *final(self) == *old(self)
                },
                ElectionOutcome::Pending => {
                    &&& r == Err::<Vec<Vec<u8>>, ServerError>(
                        ServerError::ElectionLost {
                            highest_promised: (old(self).rank() + 1) as u64,
                        },
                    )
                    &&& *final(self) == *old(self)
                },
            },
    {
        match outcome {
            ElectionOutcome::Lost { highest_promised } => {
                Err(ServerError::ElectionLost { highest_promised })
            },
            ElectionOutcome::Pending => {
                Err(ServerError::ElectionLost { highest_promised: self.epoch + 1 })
            },
            ElectionOutcome::Won { epoch, sync_to } => {
                let applied: Option<u64> = match &self.mode {
                    Mode::Follower(f) => Some(f.applied.0),
                    _ => None,
                };
                match applied {
                    None => {
                        Err(ServerError::WrongRole("promote requires follower"))
                    },
                    Some(at) => {
                        if at < sync_to.0 {
                            return Err(ServerError::ElectionLost { highest_promised: epoch });
                        }
                        self.lead(epoch, clock, rewind)
                    },
                }
            },
        }
    }

    /// Turns to another server after a lost election, and gives it time.
    fn repoint(&mut self, now: u64)
        requires
            old(self).wf(),
            old(self).follows(),
            old(self).deployment().peers >= 2,
        ensures
            final(self).wf(),
            final(self).repointed(old(self), now),
    {
        let n: usize = self.config.peers;
        let dead: usize = self.config.leader_hint;
        let mut candidate: usize = if dead + 1 == n {
            0
        } else {
            dead + 1
        };
        proof {
            lemma_step(dead, n);
            lemma_step(candidate, n);
        }
        if candidate == self.idx {
            candidate = if candidate + 1 == n {
                0
            } else {
                candidate + 1
            };
        }
        self.config.leader_hint = candidate;
        if let Mode::Follower(f) = &mut self.mode {
            let seen: u64 = f.receiver.packets_seen();
            f.detector.reset(seen, now);
        }
    }

    /// The follower turned to the next server and waits anew.
    pub open spec fn repointed(&self, before: &Self, now: u64) -> bool {
        &&& self.same_server(before)
        &&& self.follows() && !self.leads()
        &&& self.rank() == before.rank()
        &&& self.deployment() == (ClusterConfig {
            leader_hint: next_hint(
                before.deployment().leader_hint,
                before.index(),
                before.deployment().peers,
            ),
            ..before.deployment()
        })
        &&& self.journaled() == before.journaled()
        &&& self.replica() == before.replica()
        &&& self.stream() == before.stream()
        &&& self.heard() == (now, before.stream().packets)
        &&& self.patience() == before.patience()
        &&& self.mark() == before.mark()
        &&& self.disk() == before.disk()
        &&& self.disk_reliable() == before.disk_reliable()
    }

    /// Fails over where the leader is presumed dead: concludes the election
    /// that was held for the epoch [`Self::bid`]. A follower that lost it
    /// turns to the next server. Returns the role from now on and the packets
    /// to send to every other server.
    pub fn maybe_failover(
        &mut self,
        outcome: ElectionOutcome,
        clock: T,
        rewind: St,
        now: u64,
    ) -> (r: Result<(Role, Vec<Vec<u8>>), ServerError>)
        requires
            old(self).wf(),
            old(self).rank() < u64::MAX,
            old(self).suspicious(now) && !(outcome matches ElectionOutcome::Won { epoch, sync_to }
                && old(self).journaled() >= sync_to.0) ==> old(self).deployment().peers >= 2,
            clones_equal::<S::Config>(),
        ensures
            final(self).wf(),
            final(self).same_server(old(self)),
            !old(self).suspicious(now) ==> *final(self) == *old(self) && (r matches Ok(
                (role, packets),
            ) && packets@.len() == 0 && role == (if old(self).leads() {
                Role::Leader
            } else {
                Role::Follower
            })),
            old(self).suspicious(now) ==> match outcome {
                ElectionOutcome::Won { epoch, sync_to } if old(self).journaled() >= sync_to.0 => {
                    &&& r matches Ok((role, packets)) ==> role == Role::Leader
                        && final(self).took_over(old(self), epoch, wires(packets@))
                        && final(self).rewinds_on(rewind)
                    &&& r matches Err(e) ==> e is Node && !final(self).leads()
                        && !final(self).follows()
                    &&& old(self).fit_to_lead(epoch) ==> r is Ok
                },
                _ => {
                    &&& r matches Ok((role, packets)) && role == Role::Follower && packets@.len()
                        == 0
                    &&& final(self).repointed(old(self), now)
                },
            },
    {
        if !self.leader_suspected(now) {
            return Ok((self.role(), Vec::new()));
        }
        match self.promote(outcome, clock, rewind) {
            Ok(packets) => Ok((Role::Leader, packets)),
            Err(ServerError::ElectionLost { .. }) => {
                self.repoint(now);
                Ok((Role::Follower, Vec::new()))
            },
            Err(other) => Err(other),
        }
    }
}

proof fn lemma_step(at: usize, n: usize)
    requires
        at < n,
    ensures
        ((at + 1) % n as int) == (if at + 1 == n {
            0int
        } else {
            at + 1
        }),
{
    if at + 1 == n {
        assert((at + 1) % n as int == 0) by (nonlinear_arith)
            requires
                at + 1 == n,
                n > 0,
        ;
    } else {
        assert((at + 1) % n as int == at + 1) by (nonlinear_arith)
            requires
                0 <= at + 1 < n,
        ;
    }
}

/// A follower that turns away from a silent server never turns to itself, and
/// never back to the server it gave up on while there is a third.
pub proof fn law_failover_moves_on(dead: usize, own: usize, peers: usize)
    requires
        dead < peers,
        own < peers,
        peers >= 2,
    ensures
        next_hint(dead, own, peers) < peers,
        next_hint(dead, own, peers) != own,
        peers >= 3 && dead != own ==> next_hint(dead, own, peers) != dead,
{
    lemma_step(dead, peers);
    lemma_step(((dead + 1) % peers as int) as usize, peers);
}

/// A frame that a follower takes in leaves its epoch at the higher of what it was
/// and what the frame fences: it never goes down, a fence is never passed over,
/// with or without a schema version, and nothing but a fence raises it. The seq
/// and the mark go up likewise.
pub proof fn law_epoch_is_the_highest_fenced<S: Service, T: TimeSource, St: Storage>(
    before: Server<S, T, St>,
    after: Server<S, T, St>,
    f: Record,
    change: EpochChange,
)
    requires
        after.took(&before, f),
    ensures
        before.rank() <= after.rank(),
        f.kind == FrameKind::EpochChange && (f.payload == crate::epoch::fence_payload(change)
            || f.payload == (change.epoch, change.first_seq.0).bytes()) ==> {
            &&& change.epoch <= after.rank()
            &&& after.rank() == before.rank() || after.rank() == change.epoch
        },
        f.kind != FrameKind::EpochChange ==> after.rank() == before.rank(),
        f.kind == FrameKind::EpochChange && f.payload.len() != 16 && f.payload.len() != 20
            ==> after.rank() == before.rank(),
        after.journaled() == before.journaled() + 1,
        before.mark() <= after.mark(),
        f.seq <= after.mark(),
        after.mark() == before.mark() || after.mark() == f.seq,
{
    crate::epoch::law_fence_roundtrip(change);
    crate::epoch::law_fence_without_schema(change.epoch, change.first_seq.0);
}

/// Over any run of frames that a follower takes in, its epoch never goes down and
/// ends at or above every epoch that was fenced on the way: what it bids next,
/// one more than its epoch, outranks them all.
pub proof fn law_bid_outranks_every_fence<S: Service, T: TimeSource, St: Storage>(
    run: Seq<Server<S, T, St>>,
    frames: Seq<Record>,
    k: int,
    change: EpochChange,
)
    requires
        run.len() == frames.len() + 1,
        forall|i: int| 0 <= i < frames.len() ==> (#[trigger] run[i + 1]).took(&run[i], frames[i]),
    ensures
        run[0].rank() <= run.last().rank(),
        0 <= k < frames.len() && frames[k].kind == FrameKind::EpochChange && frames[k].payload
            == crate::epoch::fence_payload(change) ==> change.epoch < run.last().rank() + 1,
    decreases frames.len(),
{
    if frames.len() > 0 {
        let n = frames.len() - 1;
        let front = run.drop_last();
        let fewer = frames.drop_last();
        assert forall|i: int| 0 <= i < fewer.len() implies (#[trigger] front[i + 1]).took(
            &front[i],
            fewer[i],
        ) by {
            assert(run[i + 1].took(&run[i], frames[i]));
        }
        law_bid_outranks_every_fence(front, fewer, k, change);
        assert(run[n + 1].took(&run[n], frames[n]));
        law_epoch_is_the_highest_fenced(run[n], run[n + 1], frames[n], change);
    }
}

/// A follower that presumes its leader dead goes on doing so until it hears of
/// it again, and one that has waited for less than its patience does not.
pub proof fn law_suspicion_stays<S: Service, T: TimeSource, St: Storage>(
    server: Server<S, T, St>,
    now: u64,
    later: u64,
)
    requires
        server.follows(),
        server.heard().0 <= now <= later,
    ensures
        server.suspicious(now) ==> server.suspicious(later),
        server.suspicious(now) <==> server.heard().0 + server.patience() <= now,
{
}

/// A frame that a leader has just sequenced is what it retransmits when asked
/// for that seq.
pub proof fn law_recent_frame_is_retransmitted<S: Service, T: TimeSource, St: Storage>(
    server: Server<S, T, St>,
    i: int,
)
    requires
        server.wf(),
        server.leads(),
        0 <= i < server.recent().len(),
    ensures
        ({
            let f = server.recent()[i];
            &&& starts_at(held_from(server.recent(), f.seq, 1), f.seq)
            &&& chained(server.recent(), server.rewound(), f.seq, 1) == seq![f]
        }),
{
    let held = server.recent();
    assert(held[0].seq + i == held[i].seq);
    assert(held_from(held, held[i].seq, 1) =~= seq![held[i]]);
}

/// The heartbeat that announces `next_seq`.
pub open spec fn heartbeat_wire(session: u64, next_seq: u64) -> Seq<u8> {
    (crate::transport::packet::PacketModel::Heartbeat { session, next_seq }).wire()
}

/// The first `n` indices, without `own`.
pub open spec fn others(own: usize, n: usize) -> Seq<usize>
    decreases n,
{
    if n == 0 {
        Seq::empty()
    } else if n - 1 == own {
        others(own, (n - 1) as usize)
    } else {
        others(own, (n - 1) as usize).push((n - 1) as usize)
    }
}

/// A server's peers are all others, each once, in order.
pub proof fn law_everyone_else_is_asked(own: usize, n: usize, i: usize)
    ensures
        others(own, n).contains(i) <==> i < n && i != own,
        forall|a: int, b: int| 0 <= a < b < others(own, n).len() ==> others(own, n)[a] < others(own, n)[b],
        own < n ==> others(own, n).len() == n - 1,
        own >= n ==> others(own, n).len() == n,
    decreases n,
{
    if n > 0 {
        let m = (n - 1) as usize;
        let less = others(own, m);
        law_everyone_else_is_asked(own, m, i);
        let all = others(own, n);
        if m != own {
            assert(all =~= less.push(m));
            if less.contains(i) {
                let k = choose|k: int| 0 <= k < less.len() && less[k] == i;
                assert(all[k] == i);
            }
            if i == m {
                assert(all[less.len() as int] == i);
            }
            if all.contains(i) && i != m {
                let k = choose|k: int| 0 <= k < all.len() && all[k] == i;
                assert(less[k] == i);
            }
            assert forall|a: int, b: int| 0 <= a < b < all.len() implies all[a] < all[b] by {
                if b == less.len() {
                    law_everyone_else_is_asked(own, m, less[a]);
                    assert(less.contains(less[a]));
                }
            }
        }
    }
}

/// The server to turn to next is the one behind the one that is given up, around
/// the circle, with the follower's own place left out.
pub proof fn law_failover_goes_round(dead: usize, own: usize, peers: usize)
    requires
        dead < peers,
        own < peers,
        peers >= 2,
    ensures
        dead + 1 < peers && dead + 1 != own ==> next_hint(dead, own, peers) == dead + 1,
        dead + 1 == peers && own != 0 ==> next_hint(dead, own, peers) == 0,
        dead + 2 < peers && dead + 1 == own ==> next_hint(dead, own, peers) == dead + 2,
        dead + 2 == peers && dead + 1 == own ==> next_hint(dead, own, peers) == 0,
        dead + 1 == peers && own == 0 ==> next_hint(dead, own, peers) == 1,
{
    lemma_step(dead, peers);
    lemma_step(((dead + 1) % peers as int) as usize, peers);
}

/// A follower that lost an election turns to a server other than itself and gives
/// it all of its patience anew; its epoch, its journal, its state and its votes
/// stay as they were.
pub proof fn law_loser_waits_anew<S: Service, T: TimeSource, St: Storage>(
    before: Server<S, T, St>,
    after: Server<S, T, St>,
    now: u64,
    later: u64,
) where S::Config: Clone
    requires
        before.wf(),
        before.deployment().peers >= 2,
        after.repointed(&before, now),
        now <= later,
    ensures
        after.deployment().leader_hint < after.deployment().peers,
        after.deployment().leader_hint != after.index(),
        after.deployment().peers == before.deployment().peers,
        after.deployment().session == before.deployment().session,
        after.rank() == before.rank(),
        after.promise() == before.promise(),
        after.journaled() == before.journaled(),
        after.disk() == before.disk(),
        after.replica() == before.replica(),
        later < now + before.patience() ==> !after.suspicious(later),
        later >= now + before.patience() ==> after.suspicious(later),
{
    law_failover_moves_on(
        before.deployment().leader_hint,
        before.index(),
        before.deployment().peers,
    );
}

/// A heartbeat reads back as the leader's session and the seq that comes next.
pub proof fn law_heartbeat_announces_the_next_seq(session: u64, next_seq: u64)
    ensures
        crate::transport::packet::read_packet(heartbeat_wire(session, next_seq)) == Ok::<
            crate::transport::packet::PacketModel,
            TransportError,
        >(crate::transport::packet::PacketModel::Heartbeat { session, next_seq }),
{
    crate::transport::packet::law_packet_roundtrip(
        crate::transport::packet::PacketModel::Heartbeat { session, next_seq },
    );
}

/// A frame that is passed by leaves everything as it was.
pub proof fn law_passed_frame_changes_nothing<S: Service, T: TimeSource, St: Storage>(
    before: Server<S, T, St>,
    after: Server<S, T, St>,
)
    requires
        after.passed_by(&before),
    ensures
        after.journaled() == before.journaled(),
        after.replica() == before.replica(),
        after.mark() == before.mark(),
        after.rank() == before.rank(),
{
}

/// A new leader can send again what its journal holds, where that can be read: all
/// of it, in order.
pub proof fn law_leader_rewinds_its_journal<S: Service, T: TimeSource, St: Storage>(
    server: Server<S, T, St>,
    rewind: St,
) where S::Config: Clone
    requires
        server.rewinds_on(rewind),
    ensures
        !rewind.reliable() || recover(rewind.view(), server.home()) is Err ==> !server.rewinds(),
        rewind.reliable() ==> (recover(rewind.view(), server.home()) matches Ok(found)
            ==> server.rewinds() && server.rewound() == found.frames),
{
}

} // verus!
