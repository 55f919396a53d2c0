//! A node whose log is ordered by Raft: the consensus module decides the
//! order, and the deterministic service stays the replicated state machine.
//!
//! The caller drives it: tick the clock, propose inputs on the leader, step
//! the messages of peers, and run [`ServiceNode::drive_ready`], which persists,
//! applies what was committed, and hands back the messages to send. Committed
//! entries are applied exactly once, in log order, on every node.

use vstd::prelude::*;

use raft::eraftpb::{EntryType, HardState, Message};
use raft::storage::MemStorage;
use raft::{Config, LightReady, RawNode, Ready, StateRole};

use crate::codec::{decode_all, parse_all, Encode};
use crate::seq::{SeqNo, Timestamp};
use crate::service::{Ctx, OutBuf, Service, TimerReq};

verus! {

/// How many ticks a follower waits for its leader.
pub const ELECTION_TICK: usize = 10;

/// How many ticks lie between heartbeats.
pub const HEARTBEAT_TICK: usize = 3;

/// The types of messages, by their numbers.
pub const MSG_HUP: i32 = 0;

pub const MSG_BEAT: i32 = 1;

pub const MSG_PROPOSE: i32 = 2;

pub const MSG_APPEND: i32 = 3;

pub const MSG_APPEND_RESPONSE: i32 = 4;

pub const MSG_REQUEST_VOTE: i32 = 5;

pub const MSG_REQUEST_VOTE_RESPONSE: i32 = 6;

pub const MSG_SNAPSHOT: i32 = 7;

pub const MSG_HEARTBEAT: i32 = 8;

pub const MSG_HEARTBEAT_RESPONSE: i32 = 9;

pub const MSG_UNREACHABLE: i32 = 10;

pub const MSG_SNAP_STATUS: i32 = 11;

pub const MSG_CHECK_QUORUM: i32 = 12;

pub const MSG_TRANSFER_LEADER: i32 = 13;

pub const MSG_READ_INDEX: i32 = 15;

pub const MSG_READ_INDEX_RESP: i32 = 16;

pub const MSG_REQUEST_PRE_VOTE: i32 = 17;

pub const MSG_REQUEST_PRE_VOTE_RESPONSE: i32 = 18;

/// No group gets to this term: every term takes an election.
pub const TERM_LIMIT: u64 = 0x8000_0000_0000_0000;

/// A member of a Raft group: a `raft::RawNode` over a `raft` in-memory log.
/// One comes from `raw_new` alone, and only the functions below change it.
#[verifier::external_body]
pub struct Member {
    raw: RawNode<MemStorage>,
}

#[verifier::external_type_specification]
#[verifier::external_body]
pub struct ExReady(Ready);

#[verifier::external_type_specification]
#[verifier::external_body]
pub struct ExLightReady(LightReady);

#[verifier::external_type_specification]
#[verifier::external_body]
pub struct ExHardState(HardState);

#[verifier::external_type_specification]
#[verifier::external_body]
pub struct ExMessage(Message);

#[verifier::external_type_specification]
#[verifier::external_body]
pub struct ExRaftError(raft::Error);

/// A log entry.
pub struct LogEntry {
    pub index: u64,
    /// Whether the entry carries application data (and no change of the
    /// group's configuration).
    pub normal: bool,
    pub data: Vec<u8>,
}

/// The same, as data.
#[verifier::ext_equal]
pub struct EntryModel {
    pub index: u64,
    pub normal: bool,
    pub data: Seq<u8>,
}

impl View for LogEntry {
    type V = EntryModel;

    open spec fn view(&self) -> EntryModel {
        EntryModel { index: self.index, normal: self.normal, data: self.data@ }
    }
}

pub open spec fn entries_of(list: Seq<LogEntry>) -> Seq<EntryModel> {
    list.map_values(|e: LogEntry| e@)
}

/// What a message says before anything is made of it.
pub struct MessageHead {
    pub kind: i32,
    pub from: u64,
    pub term: u64,
    pub index: u64,
    pub log_term: u64,
    pub commit: u64,
    pub reject_hint: u64,
    pub request_snapshot: u64,
    /// The indexes of its entries.
    pub entries: Vec<u64>,
    /// Their terms.
    pub entry_terms: Vec<u64>,
}

/// The same, as data.
#[verifier::ext_equal]
pub struct HeadModel {
    pub kind: i32,
    pub from: u64,
    pub term: u64,
    pub index: u64,
    pub log_term: u64,
    pub commit: u64,
    pub reject_hint: u64,
    pub request_snapshot: u64,
    pub entries: Seq<u64>,
    pub entry_terms: Seq<u64>,
}

impl View for MessageHead {
    type V = HeadModel;

    open spec fn view(&self) -> HeadModel {
        HeadModel {
            kind: self.kind,
            from: self.from,
            term: self.term,
            index: self.index,
            log_term: self.log_term,
            commit: self.commit,
            reject_hint: self.reject_hint,
            request_snapshot: self.request_snapshot,
            entries: self.entries@,
            entry_terms: self.entry_terms@,
        }
    }
}

/// Where a member stands.
#[derive(Clone, Copy)]
pub struct Standing {
    pub term: u64,
    pub last_index: u64,
    pub persisted: u64,
    pub leader: bool,
    pub candidate: bool,
}

/// Where a new member stands: a follower in no term, with an empty log.
pub open spec fn newcomer() -> Standing {
    Standing { term: 0, last_index: 0, persisted: 0, leader: false, candidate: false }
}

/// What a member stores about its elections and commits.
pub struct HardModel {
    pub term: u64,
    pub vote: u64,
    pub commit: u64,
}

/// What a message says.
pub uninterp spec fn head_of(msg: Message) -> HeadModel;

/// Where a member stands.
pub uninterp spec fn standing_of(member: Member) -> Standing;

/// The voters of a member's group.
pub uninterp spec fn voters_of(member: Member) -> Seq<u64>;

/// The number of the [`Ready`] that was taken from a member and that it has
/// not advanced behind yet.
pub uninterp spec fn open_ready(member: Member) -> Option<u64>;

/// The entries that a member has stored.
pub uninterp spec fn stored_entries(member: Member) -> Seq<EntryModel>;

/// What a member has stored about its elections and commits.
pub uninterp spec fn stored_hard(member: Member) -> HardModel;

/// Whether the next tick of a member brings something to handle. The timeout
/// that it waits for was drawn before and belongs to the member.
pub uninterp spec fn tick_is_due(member: Member) -> bool;

/// What a member answers to a message.
pub uninterp spec fn step_outcome(member: Member, msg: Message) -> Result<(), raft::Error>;

/// Whether a member is handing its leadership over.
pub uninterp spec fn is_transferring(member: Member) -> bool;

/// Whether a member has something to persist, apply or send.
pub uninterp spec fn has_work(member: Member) -> bool;

/// What a member has to persist, apply and send.
pub uninterp spec fn ready_of(member: Member) -> Ready;

/// A member from which that was taken.
pub uninterp spec fn readied(member: Member) -> Member;

/// The number of a [`Ready`].
pub uninterp spec fn ready_number(ready: Ready) -> u64;

/// The messages of a [`Ready`] that may be sent at once.
pub uninterp spec fn ready_messages(ready: Ready) -> Seq<Message>;

/// A [`Ready`] without them.
pub uninterp spec fn messages_taken(ready: Ready) -> Ready;

/// The messages of a [`Ready`] that are sent once it is persisted.
pub uninterp spec fn persisted_messages(ready: Ready) -> Seq<Message>;

/// A [`Ready`] without them.
pub uninterp spec fn persisted_taken(ready: Ready) -> Ready;

/// Whether a [`Ready`] holds a snapshot.
pub uninterp spec fn carries_snapshot(ready: Ready) -> bool;

/// The committed entries that a [`Ready`] holds.
pub uninterp spec fn ready_committed(ready: Ready) -> Seq<EntryModel>;

/// A [`Ready`] without them.
pub uninterp spec fn committed_taken(ready: Ready) -> Ready;

/// The entries that a [`Ready`] has for the store.
pub uninterp spec fn ready_entries(ready: Ready) -> Seq<EntryModel>;

/// What a [`Ready`] has for the store about elections and commits.
pub uninterp spec fn ready_hard_state(ready: Ready) -> Option<HardState>;

/// What that says.
pub uninterp spec fn hard_of(state: HardState) -> HardModel;

/// A member that has stored the snapshot of a [`Ready`].
pub uninterp spec fn snapshot_stored(member: Member, ready: Ready) -> Member;

/// A member that has stored the entries of a [`Ready`].
pub uninterp spec fn entries_stored(member: Member, ready: Ready) -> Member;

/// A member that has stored this about elections and commits.
pub uninterp spec fn hard_stored(member: Member, state: HardState) -> Member;

/// A member that has stored this commit index.
pub uninterp spec fn commit_stored(member: Member, commit: u64) -> Member;

/// What comes of a member's advancing behind a [`Ready`].
pub uninterp spec fn advanced(member: Member, ready: Ready) -> LightReady;

/// A member that has advanced behind a [`Ready`].
pub uninterp spec fn advanced_member(member: Member, ready: Ready) -> Member;

/// A member that knows of what was applied.
pub uninterp spec fn applied_member(member: Member) -> Member;

/// The committed entries that a [`LightReady`] holds.
pub uninterp spec fn light_committed(light: LightReady) -> Seq<EntryModel>;

/// The messages that a [`LightReady`] holds.
pub uninterp spec fn light_messages(light: LightReady) -> Seq<Message>;

/// The commit index of a [`LightReady`], where it went up.
pub uninterp spec fn light_commit(light: LightReady) -> Option<u64>;

/// The data of the entries in a member's log, in log order.
pub uninterp spec fn log_data(member: Member) -> Seq<Seq<u8>>;

/// The highest index of an entry that a member handed out as committed.
pub uninterp spec fn handed_out(member: Member) -> u64;

/// A member that leads, or whose timeout has not passed, behind a tick.
pub uninterp spec fn ticked(member: Member) -> Member;

/// Where a member stands behind a tick.
pub uninterp spec fn tick_standing(member: Member) -> Standing;

/// The data of the entries in a member's log behind a tick.
pub uninterp spec fn tick_log(member: Member) -> Seq<Seq<u8>>;

/// Where a member stands once it stood for election.
pub uninterp spec fn campaigned(member: Member) -> Standing;

/// The data of the entries in a member's log once it stood for election.
pub uninterp spec fn campaign_log(member: Member) -> Seq<Seq<u8>>;

/// Where a member stands behind a message.
pub uninterp spec fn stood(member: Member, msg: Message) -> Standing;

/// The data of the entries in a member's log behind a message.
pub uninterp spec fn logged(member: Member, msg: Message) -> Seq<Seq<u8>>;

/// Whether a group member is in the leader's state.
pub open spec fn is_leading(member: Member) -> bool {
    standing_of(member).leader
}

/// Where a member stands that appended an entry to its log, or none.
pub open spec fn longer(s: Standing, appended: bool) -> Standing {
    if appended {
        Standing { last_index: (s.last_index + 1) as u64, ..s }
    } else {
        s
    }
}

/// Entries that follow one another from behind an index on.
pub open spec fn goes_on(from: u64, entries: Seq<EntryModel>) -> bool {
    forall|i: int| 0 <= i < entries.len() ==> (#[trigger] entries[i]).index == from + 1 + i
}

/// A message that asks for the leadership to be handed over.
pub open spec fn asks_transfer(msg: Message) -> bool {
    head_of(msg).kind == MSG_TRANSFER_LEADER
}

/// A member is of the same group, and has no [`Ready`] taken or advanced
/// behind in between.
pub open spec fn same_group(before: Member, after: Member) -> bool {
    &&& voters_of(after) == voters_of(before)
    &&& open_ready(after) == open_ready(before)
}

/// A member handed nothing out.
pub open spec fn hands_nothing_out(before: Member, after: Member) -> bool {
    handed_out(after) == handed_out(before)
}

/// A member has the same in its store.
pub open spec fn same_store(before: Member, after: Member) -> bool {
    &&& stored_entries(after) == stored_entries(before)
    &&& stored_hard(after) == stored_hard(before)
}

/// A member leads as before, and hands its leadership over as before.
pub open spec fn same_role(before: Member, after: Member) -> bool {
    &&& is_leading(after) == is_leading(before)
    &&& is_transferring(after) == is_transferring(before)
}

/// A store behind new entries: they take the place of whatever the store has
/// from the first of their indexes on.
pub open spec fn spliced(stored: Seq<EntryModel>, entries: Seq<EntryModel>) -> Seq<EntryModel> {
    if entries.len() == 0 {
        stored
    } else if stored.len() == 0 {
        entries
    } else {
        stored.take(entries[0].index - stored[0].index) + entries
    }
}

/// A configuration with these values is valid.
pub open spec fn valid_config(id: u64, election_tick: usize, heartbeat_tick: usize) -> bool {
    id != 0 && 0 < heartbeat_tick && heartbeat_tick < election_tick
}

/// Twice the timeout, the longest that is waited, is a `usize`.
pub open spec fn doubles(election_tick: usize) -> bool {
    2 * election_tick <= usize::MAX
}

/// The voters are distinct, and none has the number 0.
pub open spec fn distinct_members(voters: Seq<u64>) -> bool {
    &&& forall|i: int| 0 <= i < voters.len() ==> voters[i] != 0
    &&& forall|i: int, j: int| 0 <= i < j < voters.len() ==> voters[i] != voters[j]
}

/// A message that a member sends to itself alone.
pub open spec fn is_local(kind: i32) -> bool {
    ||| kind == MSG_HUP
    ||| kind == MSG_BEAT
    ||| kind == MSG_UNREACHABLE
    ||| kind == MSG_SNAP_STATUS
    ||| kind == MSG_CHECK_QUORUM
}

/// A message that answers another.
pub open spec fn is_answer(kind: i32) -> bool {
    ||| kind == MSG_APPEND_RESPONSE
    ||| kind == MSG_REQUEST_VOTE_RESPONSE
    ||| kind == MSG_HEARTBEAT_RESPONSE
    ||| kind == MSG_REQUEST_PRE_VOTE_RESPONSE
}

/// The entries of a message go on from its index.
pub open spec fn runs_on(h: HeadModel) -> bool {
    forall|i: int| 0 <= i < h.entries.len() ==> #[trigger] h.entries[i] == h.index + 1 + i
}

/// The entries of a message were appended by leaders: each in a term.
pub open spec fn in_terms(h: HeadModel) -> bool {
    forall|i: int| 0 <= i < h.entry_terms.len() ==> #[trigger] h.entry_terms[i] != 0
}

/// A member that stands so can take the message in. What it cannot take is no
/// message that a peer of its group sends: a group of one has no peers, there
/// are no snapshots, entries follow one another and have terms, commit indexes
/// are within the log that was sent, terms are set on what is said for a term,
/// and votes come in once the log is persisted. Raft answers local messages, and the answers
/// of strangers, with an error.
pub open spec fn takes_in(s: Standing, voters: Seq<u64>, h: HeadModel) -> bool {
    is_local(h.kind) || (is_answer(h.kind) && !voters.contains(h.from)) || (voters.len() > 1
        && h.term < TERM_LIMIT && (if h.kind == MSG_APPEND {
        h.term != 0 && (h.index <= s.last_index || h.log_term != 0) && runs_on(h) && in_terms(h)
    } else if h.kind == MSG_HEARTBEAT {
        h.term != 0 && (h.commit <= s.last_index || h.term < s.term || (s.leader && h.term
            == s.term))
    } else if h.kind == MSG_APPEND_RESPONSE {
        h.request_snapshot == 0 && h.reject_hint < u64::MAX && (h.index <= s.last_index
            || !s.leader || (h.term != 0 && h.term != s.term))
    } else if h.kind == MSG_PROPOSE || h.kind == MSG_READ_INDEX {
        h.entries.len() > 0 && (h.term == 0 || h.term != s.term || s.leader)
    } else if h.kind == MSG_TRANSFER_LEADER {
        h.term == 0 || h.term != s.term || s.leader
    } else if h.kind == MSG_REQUEST_VOTE || h.kind == MSG_READ_INDEX_RESP {
        h.term != 0
    } else if h.kind == MSG_REQUEST_PRE_VOTE {
        h.term != 0 && s.term != 0
    } else if h.kind == MSG_REQUEST_VOTE_RESPONSE {
        s.persisted == s.last_index || !s.candidate || (h.term != 0 && h.term != s.term)
    } else {
        h.kind != MSG_SNAPSHOT
    }))
}

/// Calls `raft::Config::validate` on the default configuration with these
/// values. It refuses id 0, a heartbeat interval of 0, and an election timeout
/// that is not longer than the heartbeat interval; nothing else about the
/// defaults is refused.
#[verifier::external_body]
fn check_config(id: u64, election_tick: usize, heartbeat_tick: usize) -> (r: Result<
    (),
    raft::Error,
>)
    requires
        doubles(election_tick),
    ensures
        (r is Ok) == valid_config(id, election_tick, heartbeat_tick),
{
    Config { id, election_tick, heartbeat_tick, ..Default::default() }.validate()
}

/// Calls `raft::RawNode::new` with the default configuration and these values,
/// a fresh `MemStorage` that knows the voters, and a logger that discards. A
/// valid configuration and voters that are distinct, not 0, and the member
/// among them, are accepted. The new member is a follower with an empty log
/// and an empty store that hands nothing over.
#[verifier::external_body]
fn raw_new(
    id: u64,
    election_tick: usize,
    heartbeat_tick: usize,
    voters: Vec<u64>,
) -> (r: Result<Member, raft::Error>)
    requires
        valid_config(id, election_tick, heartbeat_tick),
        doubles(election_tick),
        distinct_members(voters@),
        voters@.contains(id),
    ensures
        r is Ok,
        standing_of(r->Ok_0) == newcomer(),
        !is_transferring(r->Ok_0),
        log_data(r->Ok_0) == Seq::<Seq<u8>>::empty(),
        voters_of(r->Ok_0) == voters@,
        open_ready(r->Ok_0) is None,
        handed_out(r->Ok_0) == 0,
        stored_entries(r->Ok_0) == Seq::<EntryModel>::empty(),
        stored_hard(r->Ok_0) == (HardModel { term: 0, vote: 0, commit: 0 }),
{
    let config = Config { id, election_tick, heartbeat_tick, ..Default::default() };
    let storage = MemStorage::new_with_conf_state((voters, Vec::new()));
    let logger = slog::Logger::root(slog::Discard, slog::OwnedKV(()));
    RawNode::new(&config, storage, &logger).map(|raw| Member { raw })
}

/// Calls `raft::RawNode::tick`, whose result depends on the member alone, and
/// so do its role, its term and its log afterwards. A tick makes a leader send
/// heartbeats and give up a transfer that takes too long; it stands where it
/// stood, and its log stays. No tick starts a transfer, stores anything or
/// hands anything out. All of a member is a matter of what it was, except
/// where the timeout of a follower or candidate has passed: it stands for
/// election then and draws its next timeout at random. A lone voter wins its
/// own vote and asserts that its log is persisted: it is, since a lone voter
/// takes no message in and appends nothing before it leads.
#[verifier::external_body]
fn raw_tick(member: &mut Member) -> (r: bool)
    requires
        open_ready(*old(member)) is None,
    ensures
        r == tick_is_due(*old(member)),
        is_leading(*old(member)) || !r ==> *final(member) == ticked(*old(member)),
        standing_of(*final(member)) == tick_standing(*old(member)),
        log_data(*final(member)) == tick_log(*old(member)),
        is_leading(*old(member)) || !r ==> standing_of(*final(member)) == standing_of(
            *old(member),
        ) && log_data(*final(member)) == log_data(*old(member)),
        is_transferring(*final(member)) ==> is_transferring(*old(member)),
        hands_nothing_out(*old(member), *final(member)),
        same_group(*old(member), *final(member)),
        same_store(*old(member), *final(member)),
{
    member.raw.tick()
}

/// Calls `raft::RawNode::campaign`, which has no error to return. A leader
/// ignores the call. The role, the term and the log of the member afterwards
/// depend on the member alone; the next timeout, drawn at random, does not show
/// in them. No campaign starts a transfer, stores anything or hands anything
/// out. As with ticks, a lone voter's log is persisted whenever it stands.
#[verifier::external_body]
fn raw_campaign(member: &mut Member) -> (r: Result<(), raft::Error>)
    requires
        open_ready(*old(member)) is None,
    ensures
        r is Ok,
        standing_of(*final(member)) == campaigned(*old(member)),
        log_data(*final(member)) == campaign_log(*old(member)),
        is_leading(*old(member)) ==> *final(member) == *old(member),
        is_transferring(*final(member)) ==> is_transferring(*old(member)),
        hands_nothing_out(*old(member), *final(member)),
        same_group(*old(member), *final(member)),
        same_store(*old(member), *final(member)),
{
    member.raw.campaign()
}

/// Reads the state of a `raft::RawNode`.
#[verifier::external_body]
fn raw_is_leader(member: &Member) -> (r: bool)
    ensures
        r == is_leading(*member),
{
    match member.raw.raft.state {
        StateRole::Leader => true,
        StateRole::Follower => false,
        StateRole::Candidate => false,
        StateRole::PreCandidate => false,
    }
}

/// Reads the term, the last index, the index up to which the log is persisted
/// and the state of a `raft::RawNode`.
#[verifier::external_body]
fn raw_standing(member: &Member) -> (r: Standing)
    ensures
        r == standing_of(*member),
{
    let raft = &member.raw.raft;
    let (leader, candidate) = match raft.state {
        StateRole::Leader => (true, false),
        StateRole::Follower => (false, false),
        StateRole::Candidate => (false, true),
        StateRole::PreCandidate => (false, true),
    };
    let last_index = raft.raft_log.last_index();
    Standing { term: raft.term, last_index, persisted: raft.raft_log.persisted, leader, candidate }
}

/// Reads the type, the sender, the terms, the indexes and the request of a
/// `raft::eraftpb::Message`, and the indexes and terms of its entries.
#[verifier::external_body]
fn message_head(msg: &Message) -> (r: MessageHead)
    ensures
        r@ == head_of(*msg),
{
    MessageHead {
        kind: msg.get_msg_type() as i32,
        from: msg.get_from(),
        term: msg.get_term(),
        index: msg.get_index(),
        log_term: msg.get_log_term(),
        commit: msg.get_commit(),
        reject_hint: msg.get_reject_hint(),
        request_snapshot: msg.get_request_snapshot(),
        entries: msg.get_entries().iter().map(|e| e.get_index()).collect(),
        entry_terms: msg.get_entries().iter().map(|e| e.get_term()).collect(),
    }
}

/// Calls `raft::RawNode::propose` with the data and an empty context. The
/// configuration sets no limit on uncommitted data, so a leader drops a
/// proposal only while it hands its leadership over. Otherwise it appends one
/// entry with the data to its log. It goes on leading in its term, and a transfer
/// goes on.
/// Nothing is stored or handed out yet.
#[verifier::external_body]
fn raw_propose(member: &mut Member, data: Vec<u8>) -> (r: Result<(), raft::Error>)
    requires
        is_leading(*old(member)),
    ensures
        r is Ok <==> !is_transferring(*old(member)),
        standing_of(*final(member)) == longer(standing_of(*old(member)), r is Ok),
        is_transferring(*final(member)) == is_transferring(*old(member)),
        log_data(*final(member)) == (if r is Ok {
            log_data(*old(member)).push(data@)
        } else {
            log_data(*old(member))
        }),
        hands_nothing_out(*old(member), *final(member)),
        same_group(*old(member), *final(member)),
        same_store(*old(member), *final(member)),
{
    member.raw.propose(Vec::new(), data)
}

/// The error `raft::Error::ProposalDropped`, with which raft answers a proposal
/// that it does not take.
#[verifier::external_body]
fn proposal_dropped() -> (r: raft::Error) {
    raft::Error::ProposalDropped
}

/// Calls `raft::RawNode::step`, whose result depends on the member and the
/// message alone, and so do the role, the term and the log of the member
/// afterwards. Only a message that asks for it starts a transfer, and no
/// message stores anything or hands anything out. The rest of the member is
/// left unsaid: where it turns into a follower or a candidate it draws a
/// timeout at random.
#[verifier::external_body]
fn raw_step(member: &mut Member, msg: Message) -> (r: Result<(), raft::Error>)
    requires
        open_ready(*old(member)) is None,
        takes_in(standing_of(*old(member)), voters_of(*old(member)), head_of(msg)),
    ensures
        r == step_outcome(*old(member), msg),
        standing_of(*final(member)) == stood(*old(member), msg),
        log_data(*final(member)) == logged(*old(member), msg),
        hands_nothing_out(*old(member), *final(member)),
        is_transferring(*final(member)) ==> is_transferring(*old(member)) || asks_transfer(msg),
        same_group(*old(member), *final(member)),
        same_store(*old(member), *final(member)),
{
    member.raw.step(msg)
}

/// Calls `raft::RawNode::has_ready`, which reads the state of the member and
/// nothing else.
#[verifier::external_body]
fn raw_has_ready(member: &Member) -> (r: bool)
    ensures
        r == has_work(*member),
{
    member.raw.has_ready()
}

/// Calls `raft::RawNode::ready`, which takes what is ready out of the state of
/// the member and looks at nothing else. Role, log and store stay. The
/// member advances behind one before the next is taken. Without a snapshot, the
/// committed entries in it go on from behind those that the member handed out
/// before (the node remembers the index of the last).
#[verifier::external_body]
fn raw_ready(member: &mut Member) -> (r: Ready)
    requires
        open_ready(*old(member)) is None,
    ensures
        r == ready_of(*old(member)),
        *final(member) == readied(*old(member)),
        standing_of(*final(member)) == standing_of(*old(member)),
        log_data(*final(member)) == log_data(*old(member)),
        open_ready(*final(member)) == Some(ready_number(r)),
        !carries_snapshot(r) ==> goes_on(handed_out(*old(member)), ready_committed(r))
            && handed_out(*final(member)) == handed_out(*old(member)) + ready_committed(r).len(),
        voters_of(*final(member)) == voters_of(*old(member)),
        same_role(*old(member), *final(member)),
        same_store(*old(member), *final(member)),
{
    member.raw.ready()
}

/// Calls `raft::Ready::take_messages`, which hands out the messages that may be
/// sent at once, and leaves all else alone.
#[verifier::external_body]
fn take_messages(ready: &mut Ready) -> (r: Vec<Message>)
    ensures
        r@ == ready_messages(*old(ready)),
        *final(ready) == messages_taken(*old(ready)),
        ready_number(*final(ready)) == ready_number(*old(ready)),
        persisted_messages(*final(ready)) == persisted_messages(*old(ready)),
        ready_committed(*final(ready)) == ready_committed(*old(ready)),
        ready_entries(*final(ready)) == ready_entries(*old(ready)),
        ready_hard_state(*final(ready)) == ready_hard_state(*old(ready)),
        carries_snapshot(*final(ready)) == carries_snapshot(*old(ready)),
{
    ready.take_messages()
}

/// Calls `raft::Ready::take_persisted_messages`, which hands out the messages
/// that wait until the rest is persisted, and leaves all else alone.
#[verifier::external_body]
fn take_persisted_messages(ready: &mut Ready) -> (r: Vec<Message>)
    ensures
        r@ == persisted_messages(*old(ready)),
        *final(ready) == persisted_taken(*old(ready)),
        ready_number(*final(ready)) == ready_number(*old(ready)),
{
    ready.take_persisted_messages()
}

/// Calls `raft::Ready::take_committed_entries`, which hands out the committed
/// entries in log order and leaves none behind, and all else as it is. Of each
/// entry the index, the type and the data are kept.
#[verifier::external_body]
fn take_committed(ready: &mut Ready) -> (r: Vec<LogEntry>)
    ensures
        entries_of(r@) == ready_committed(*old(ready)),
        *final(ready) == committed_taken(*old(ready)),
        ready_number(*final(ready)) == ready_number(*old(ready)),
        ready_committed(*final(ready)) == Seq::<EntryModel>::empty(),
        persisted_messages(*final(ready)) == persisted_messages(*old(ready)),
        ready_entries(*final(ready)) == ready_entries(*old(ready)),
        ready_hard_state(*final(ready)) == ready_hard_state(*old(ready)),
{
    ready.take_committed_entries().into_iter().map(
        |e| LogEntry {
            index: e.get_index(),
            normal: e.get_entry_type() == EntryType::EntryNormal,
            data: e.get_data().to_vec(),
        },
    ).collect()
}

/// Calls `raft::LightReady::take_committed_entries`, which hands out the
/// committed entries in log order and leaves none behind. Of each entry the
/// index, the type and the data are kept.
#[verifier::external_body]
fn take_light_committed(light: &mut LightReady) -> (r: Vec<LogEntry>)
    ensures
        entries_of(r@) == light_committed(*old(light)),
        light_committed(*final(light)) == Seq::<EntryModel>::empty(),
{
    light.take_committed_entries().into_iter().map(
        |e| LogEntry {
            index: e.get_index(),
            normal: e.get_entry_type() == EntryType::EntryNormal,
            data: e.get_data().to_vec(),
        },
    ).collect()
}

/// Calls `raft::LightReady::take_messages`, which hands out the messages and
/// leaves none behind, and the committed entries as they are.
#[verifier::external_body]
fn take_light_messages(light: &mut LightReady) -> (r: Vec<Message>)
    ensures
        r@ == light_messages(*old(light)),
        light_messages(*final(light)) == Seq::<Message>::empty(),
        light_committed(*final(light)) == light_committed(*old(light)),
{
    light.take_messages()
}

/// Calls `raft::Ready::snapshot`, and `is_empty` on what it returns.
#[verifier::external_body]
fn has_snapshot(ready: &Ready) -> (r: bool)
    ensures
        r == carries_snapshot(*ready),
{
    !ready.snapshot().is_empty()
}

/// Calls `apply_snapshot` of `raft::storage::MemStorageCore` with the snapshot
/// of the `raft::Ready` that was just taken from the member. Such a snapshot
/// lies behind what is stored, so there is no error to return. The role stays.
#[verifier::external_body]
fn store_snapshot(member: &mut Member, ready: &Ready) -> (r: Result<(), raft::Error>)
    requires
        carries_snapshot(*ready),
        exists|m: Member|
            open_ready(m) is None && *old(member) == #[trigger] readied(m) && *ready
                == messages_taken(ready_of(m)),
    ensures
        r is Ok,
        *final(member) == snapshot_stored(*old(member), *ready),
        hands_nothing_out(*old(member), *final(member)),
        same_group(*old(member), *final(member)),
        same_role(*old(member), *final(member)),
{
    member.raw.mut_store().wl().apply_snapshot(ready.snapshot().clone())
}

/// Calls `append` of `raft::storage::MemStorageCore` with the entries of the
/// `raft::Ready` that was taken from the member last, behind its snapshot where
/// it has one. They go on from what is stored or take the place of its end; none
/// is fine. There is no error to
/// return. The role, the log and what is stored besides stay.
#[verifier::external_body]
fn store_entries(member: &mut Member, ready: &Ready) -> (r: Result<(), raft::Error>)
    requires
        exists|m: Member|
            open_ready(m) is None && *old(member) == #[trigger] snapped(m) && *ready
                == ready_to_store(m),
    ensures
        r is Ok,
        *final(member) == entries_stored(*old(member), *ready),
        log_data(*final(member)) == log_data(*old(member)),
        hands_nothing_out(*old(member), *final(member)),
        stored_entries(*final(member)) == spliced(
            stored_entries(*old(member)),
            ready_entries(*ready),
        ),
        stored_hard(*final(member)) == stored_hard(*old(member)),
        same_group(*old(member), *final(member)),
        same_role(*old(member), *final(member)),
{
    member.raw.mut_store().wl().append(ready.entries())
}

/// Calls `raft::Ready::hs`.
#[verifier::external_body]
fn hard_state(ready: &Ready) -> (r: Option<HardState>)
    ensures
        r == ready_hard_state(*ready),
{
    ready.hs().cloned()
}

/// Calls `set_hardstate` of `raft::storage::MemStorageCore`, which stores the
/// term, the vote and the commit index. The role, the log and the stored entries
/// stay.
#[verifier::external_body]
fn store_hard_state(member: &mut Member, state: HardState)
    ensures
        *final(member) == hard_stored(*old(member), state),
        log_data(*final(member)) == log_data(*old(member)),
        hands_nothing_out(*old(member), *final(member)),
        stored_hard(*final(member)) == hard_of(state),
        stored_entries(*final(member)) == stored_entries(*old(member)),
        same_group(*old(member), *final(member)),
        same_role(*old(member), *final(member)),
{
    member.raw.mut_store().wl().set_hardstate(state)
}

/// Calls `raft::RawNode::advance` with what is left of the `raft::Ready` that
/// was taken from the member last, once the member has stored what was in it.
/// What comes of it depends on the two alone. Role, log and store stay. The
/// committed entries in it go on from behind those that the member handed out
/// before.
#[verifier::external_body]
fn raw_advance(member: &mut Member, ready: Ready) -> (r: LightReady)
    requires
        exists|m: Member|
            open_ready(m) is None && *old(member) == #[trigger] stored(m) && ready
                == persisted_taken(ready_to_store(m)),
    ensures
        r == advanced(*old(member), ready),
        goes_on(handed_out(*old(member)), light_committed(r)),
        handed_out(*final(member)) == handed_out(*old(member)) + light_committed(r).len(),
        *final(member) == advanced_member(*old(member), ready),
        log_data(*final(member)) == log_data(*old(member)),
        open_ready(*final(member)) is None,
        voters_of(*final(member)) == voters_of(*old(member)),
        same_role(*old(member), *final(member)),
        same_store(*old(member), *final(member)),
{
    member.raw.advance(ready)
}

/// Calls `raft::LightReady::commit_index`.
#[verifier::external_body]
fn commit_index(light: &LightReady) -> (r: Option<u64>)
    ensures
        r == light_commit(*light),
{
    light.commit_index()
}

/// Calls `mut_hard_state` of `raft::storage::MemStorageCore` and sets the
/// commit index in what it returns. The role, the log and what is stored besides
/// stay.
#[verifier::external_body]
fn store_commit(member: &mut Member, commit: u64)
    ensures
        *final(member) == commit_stored(*old(member), commit),
        log_data(*final(member)) == log_data(*old(member)),
        hands_nothing_out(*old(member), *final(member)),
        stored_hard(*final(member)) == (HardModel { commit, ..stored_hard(*old(member)) }),
        stored_entries(*final(member)) == stored_entries(*old(member)),
        same_group(*old(member), *final(member)),
        same_role(*old(member), *final(member)),
{
    member.raw.mut_store().wl().mut_hard_state().set_commit(commit)
}

/// Calls `raft::RawNode::advance_apply`, which notes that all that was handed
/// out is applied. Role, log and store stay.
#[verifier::external_body]
fn raw_advance_apply(member: &mut Member)
    requires
        open_ready(*old(member)) is None,
    ensures
        *final(member) == applied_member(*old(member)),
        log_data(*final(member)) == log_data(*old(member)),
        hands_nothing_out(*old(member), *final(member)),
        same_group(*old(member), *final(member)),
        same_role(*old(member), *final(member)),
        same_store(*old(member), *final(member)),
{
    member.raw.advance_apply()
}

/// The [`Ready`] of a member with its messages and its committed entries taken
/// out.
pub open spec fn ready_to_store(member: Member) -> Ready {
    committed_taken(messages_taken(ready_of(member)))
}

/// A member that has stored the snapshot that was ready, where there was one.
pub open spec fn snapped(member: Member) -> Member {
    let held = messages_taken(ready_of(member));
    if carries_snapshot(held) {
        snapshot_stored(readied(member), held)
    } else {
        readied(member)
    }
}

/// A member that has stored what was ready.
pub open spec fn stored(member: Member) -> Member {
    let written = entries_stored(snapped(member), ready_to_store(member));
    match ready_hard_state(ready_to_store(member)) {
        Some(state) => hard_stored(written, state),
        None => written,
    }
}

/// What comes of persisting what a member has ready.
pub open spec fn light_of(member: Member) -> LightReady {
    advanced(stored(member), persisted_taken(ready_to_store(member)))
}

/// A member that has persisted what was ready, and for which all that was
/// committed by then is applied.
pub open spec fn driven(member: Member) -> Member {
    let on = advanced_member(stored(member), persisted_taken(ready_to_store(member)));
    applied_member(
        match light_commit(light_of(member)) {
            Some(commit) => commit_stored(on, commit),
            None => on,
        },
    )
}

/// What a member has stored about elections and commits behind what was ready.
pub open spec fn hard_behind(member: Member) -> HardModel {
    let written = match ready_hard_state(ready_of(member)) {
        Some(state) => hard_of(state),
        None => stored_hard(member),
    };
    match light_commit(light_of(member)) {
        Some(commit) => HardModel { commit, ..written },
        None => written,
    }
}

/// Raft refused a step, for example a proposal on a member that is not the
/// leader.
#[derive(Debug)]
pub struct StepError(pub raft::Error);

/// An answer of raft, with the error as a refusal.
pub open spec fn answered<V>(r: Result<V, raft::Error>) -> Result<V, StepError> {
    match r {
        Ok(v) => Ok(v),
        Err(e) => Err(StepError(e)),
    }
}

fn refused<V>(r: Result<V, raft::Error>) -> (out: Result<V, StepError>)
    ensures
        out == answered(r),
{
    match r {
        Ok(v) => Ok(v),
        Err(e) => Err(StepError(e)),
    }
}

/// The state behind a log entry. Empty entries (a new leader's first) and
/// changes of the group carry no input, and what does not decode is skipped.
/// Seq and time are the log index, the same on every replica.
pub open spec fn behind_entry<S: Service>(
    config: S::Config,
    state: Seq<u8>,
    e: EntryModel,
) -> Seq<u8> {
    if e.data.len() == 0 || !e.normal {
        state
    } else {
        match parse_all::<S::Input>(e.data) {
            Err(_) => state,
            Ok(input) => S::step(config, state, e.index, e.index, input).state,
        }
    }
}

/// The state behind log entries in order.
pub open spec fn behind_entries<S: Service>(
    config: S::Config,
    state: Seq<u8>,
    entries: Seq<EntryModel>,
) -> Seq<u8>
    decreases entries.len(),
{
    if entries.len() == 0 {
        state
    } else {
        behind_entry::<S>(
            config,
            behind_entries::<S>(config, state, entries.drop_last()),
            entries.last(),
        )
    }
}

/// The index of the last of some entries, or what it was.
pub open spec fn last_index(applied: u64, entries: Seq<EntryModel>) -> u64 {
    if entries.len() == 0 {
        applied
    } else {
        entries.last().index
    }
}

/// Applying a log in two parts is applying it at once: members that applied
/// the same log are in the same state, however it came to them.
pub proof fn law_log_in_parts<S: Service>(
    config: S::Config,
    state: Seq<u8>,
    a: Seq<EntryModel>,
    b: Seq<EntryModel>,
)
    ensures
        behind_entries::<S>(config, state, a + b) == behind_entries::<S>(
            config,
            behind_entries::<S>(config, state, a),
            b,
        ),
    decreases b.len(),
{
    if b.len() == 0 {
        assert(a + b =~= a);
    } else {
        assert((a + b).drop_last() =~= a + b.drop_last());
        law_log_in_parts::<S>(config, state, a, b.drop_last());
    }
}

/// An entry that carries an input takes the service one step on, at the entry's
/// own index as seq and as time; an entry that carries none leaves it.
pub proof fn law_entry_steps_at_its_index<S: Service>(
    config: S::Config,
    state: Seq<u8>,
    before: Seq<EntryModel>,
    e: EntryModel,
    input: S::Input,
)
    ensures
        e.normal && input.encodable() && e.data == input.bytes() && e.data.len() > 0
            ==> behind_entries::<S>(config, state, before.push(e)) == S::step(
            config,
            behind_entries::<S>(config, state, before),
            e.index,
            e.index,
            e.data,
        ).state,
        !e.normal || e.data.len() == 0 || parse_all::<S::Input>(e.data) is Err
            ==> behind_entries::<S>(config, state, before.push(e)) == behind_entries::<S>(
            config,
            state,
            before,
        ),
{
    assert(before.push(e).drop_last() =~= before);
    assert(before.push(e).last() == e);
    if input.encodable() {
        crate::codec::law_encoding_is_accepted(input);
    }
}

/// The seqs that the service sees go strictly up with the log: the entry that
/// stands `k` behind `from` is applied at seq and time `from + 1 + k`, to what
/// the entries in front of it led to.
pub proof fn law_log_is_applied_upwards<S: Service>(
    config: S::Config,
    state: Seq<u8>,
    from: u64,
    entries: Seq<EntryModel>,
    k: int,
    input: S::Input,
)
    requires
        goes_on(from, entries),
        0 <= k < entries.len(),
        entries[k].normal,
        input.encodable(),
        entries[k].data == input.bytes(),
        input.bytes().len() > 0,
    ensures
        behind_entries::<S>(config, state, entries.take(k + 1)) == S::step(
            config,
            behind_entries::<S>(config, state, entries.take(k)),
            (from + 1 + k) as u64,
            (from + 1 + k) as u64,
            input.bytes(),
        ).state,
        forall|j: int| 0 <= j < k ==> (#[trigger] entries[j]).index < entries[k].index,
        last_index(from, entries.take(k + 1)) == from + 1 + k,
        last_index(from, Seq::empty()) == from,
{
    assert(entries.take(k + 1) =~= entries.take(k).push(entries[k]));
    law_entry_steps_at_its_index::<S>(config, state, entries.take(k), entries[k], input);
}

/// New entries replace what a store holds from their first index on, and leave
/// what stands in front of it.
pub proof fn law_stored_log_is_rewritten(stored: Seq<EntryModel>, entries: Seq<EntryModel>, i: int)
    requires
        entries.len() > 0,
        stored.len() > 0 ==> stored[0].index <= entries[0].index <= stored[0].index + stored.len(),
    ensures
        spliced(stored, entries).skip(spliced(stored, entries).len() - entries.len()) == entries,
        stored.len() == 0 ==> spliced(stored, entries) == entries,
        stored.len() > 0 ==> spliced(stored, entries).len() == entries[0].index - stored[0].index
            + entries.len(),
        stored.len() > 0 && 0 <= i < entries[0].index - stored[0].index ==> spliced(
            stored,
            entries,
        )[i] == stored[i],
        spliced(stored, Seq::empty()) == stored,
{
    assert(spliced(stored, entries).skip(spliced(stored, entries).len() - entries.len())
        =~= entries);
}

/// One member of a group: the consensus module and the service.
pub struct ServiceNode<S: Service> {
    member: Member,
    service: S,
    applied: u64,
    outputs: OutBuf<S::Output>,
    timer_ops: Vec<TimerReq>,
    voters: Vec<u64>,
}

/// Whether the entries of a message go on from its index.
fn follow_on(head: &MessageHead) -> (r: bool)
    ensures
        r == runs_on(head@),
{
    let mut i: usize = 0;
    while i < head.entries.len()
        invariant
            i <= head.entries@.len(),
            forall|j: int|
                0 <= j < i ==> #[trigger] head@.entries[j] == head@.index + 1 + j,
        decreases head.entries@.len() - i,
    {
        let want: u128 = head.index as u128 + 1 + i as u128;
        if head.entries[i] as u128 != want {
            assert(head@.entries[i as int] != head@.index + 1 + i);
            return false;
        }
        i = i + 1;
    }
    true
}

/// Whether each entry of a message has a term.
fn have_terms(head: &MessageHead) -> (r: bool)
    ensures
        r == in_terms(head@),
{
    let mut i: usize = 0;
    while i < head.entry_terms.len()
        invariant
            i <= head.entry_terms@.len(),
            forall|j: int| 0 <= j < i ==> #[trigger] head@.entry_terms[j] != 0,
        decreases head.entry_terms@.len() - i,
    {
        if head.entry_terms[i] == 0 {
            assert(head@.entry_terms[i as int] == 0);
            return false;
        }
        i = i + 1;
    }
    true
}

/// Whether a voter with this number is in the list.
fn is_voter(voters: &Vec<u64>, id: u64) -> (r: bool)
    ensures
        r == voters@.contains(id),
{
    let mut i: usize = 0;
    while i < voters.len()
        invariant
            i <= voters@.len(),
            forall|j: int| 0 <= j < i ==> voters@[j] != id,
        decreases voters@.len() - i,
    {
        if voters[i] == id {
            return true;
        }
        i = i + 1;
    }
    false
}

/// Whether a member that stands so can take a message in.
pub fn can_take_in(standing: &Standing, voters: &Vec<u64>, head: &MessageHead) -> (r: bool)
    ensures
        r == takes_in(*standing, voters@, head@),
{
    let kind: i32 = head.kind;
    if kind == MSG_HUP || kind == MSG_BEAT || kind == MSG_UNREACHABLE || kind == MSG_SNAP_STATUS
        || kind == MSG_CHECK_QUORUM {
        return true;
    }
    if (kind == MSG_APPEND_RESPONSE || kind == MSG_REQUEST_VOTE_RESPONSE || kind
        == MSG_HEARTBEAT_RESPONSE || kind == MSG_REQUEST_PRE_VOTE_RESPONSE) && !is_voter(
        voters,
        head.from,
    ) {
        return true;
    }
    if voters.len() <= 1 || head.term >= TERM_LIMIT {
        return false;
    }
    let of_its_term: bool = head.term == standing.term;
    if kind == MSG_APPEND {
        head.term != 0 && (head.index <= standing.last_index || head.log_term != 0) && follow_on(
            head,
        ) && have_terms(head)
    } else if kind == MSG_HEARTBEAT {
        head.term != 0 && (head.commit <= standing.last_index || head.term < standing.term || (
        standing.leader && of_its_term))
    } else if kind == MSG_APPEND_RESPONSE {
        head.request_snapshot == 0 && head.reject_hint < u64::MAX && (head.index
            <= standing.last_index || !standing.leader || (head.term != 0 && !of_its_term))
    } else if kind == MSG_PROPOSE || kind == MSG_READ_INDEX {
        head.entries.len() > 0 && (head.term == 0 || !of_its_term || standing.leader)
    } else if kind == MSG_TRANSFER_LEADER {
        head.term == 0 || !of_its_term || standing.leader
    } else if kind == MSG_REQUEST_VOTE || kind == MSG_READ_INDEX_RESP {
        head.term != 0
    } else if kind == MSG_REQUEST_PRE_VOTE {
        head.term != 0 && standing.term != 0
    } else if kind == MSG_REQUEST_VOTE_RESPONSE {
        standing.persisted == standing.last_index || !standing.candidate || (head.term != 0
            && !of_its_term)
    } else {
        kind != MSG_SNAPSHOT
    }
}

impl<S: Service> ServiceNode<S> {
    /// Nothing that was ready is left half handled.
    pub closed spec fn wf(&self) -> bool {
        open_ready(self.member) is None && self.knows_its_group()
    }

    /// The voters that the node knows are those of its group.
    pub closed spec fn knows_its_group(&self) -> bool {
        self.voters@ == voters_of(self.member)
    }

    /// The message is one that a peer of the group sends to this member.
    pub open spec fn expects(&self, msg: Message) -> bool {
        takes_in(standing_of(self.member()), voters_of(self.member()), head_of(msg))
    }

    pub closed spec fn config(&self) -> S::Config {
        self.service.config()
    }

    pub closed spec fn state(&self) -> Seq<u8> {
        self.service.state()
    }

    /// The highest log index applied.
    pub closed spec fn reached(&self) -> u64 {
        self.applied
    }

    pub closed spec fn member(&self) -> Member {
        self.member
    }

    /// Nothing was applied.
    pub open spec fn unapplied(&self, before: &Self) -> bool {
        &&& self.config() == before.config()
        &&& self.state() == before.state()
        &&& self.reached() == before.reached()
    }

    /// Nothing was applied that the member did not hand out, and all that it
    /// handed out was applied.
    pub open spec fn in_step(&self) -> bool {
        self.reached() == handed_out(self.member())
    }

    /// The member stands where it stood, with the same log.
    pub open spec fn stands_still(&self, before: &Self) -> bool {
        &&& standing_of(self.member()) == standing_of(before.member())
        &&& log_data(self.member()) == log_data(before.member())
    }

    /// The member has persisted what was ready, has applied what was committed
    /// by then and what that committed, in log order, and `messages` are those
    /// of both. Each entry is applied once: they follow one another from behind
    /// the last that was applied.
    pub open spec fn drove(&self, before: &Self, messages: Seq<Message>) -> bool {
        let ready = ready_of(before.member());
        let light = light_of(before.member());
        let entries = ready_committed(ready) + light_committed(light);
        &&& self.member() == driven(before.member())
        &&& self.state() == behind_entries::<S>(before.config(), before.state(), entries)
        &&& self.reached() == last_index(before.reached(), entries)
        &&& messages == ready_messages(ready) + persisted_messages(ready) + light_messages(light)
        &&& !carries_snapshot(ready) ==> stored_entries(self.member()) == spliced(
            stored_entries(before.member()),
            ready_entries(ready),
        ) && stored_hard(self.member()) == hard_behind(before.member()) && log_data(self.member())
            == log_data(before.member())
        &&& before.in_step() && !carries_snapshot(ready) ==> {
            &&& goes_on(before.reached(), entries)
            &&& self.reached() == before.reached() + entries.len()
            &&& self.in_step()
        }
    }

    /// These entries were applied, in order, from behind what was applied before:
    /// none is left out, and none comes twice.
    pub open spec fn applies(&self, before: &Self, entries: Seq<EntryModel>) -> bool {
        &&& self.config() == before.config()
        &&& self.state() == behind_entries::<S>(before.config(), before.state(), entries)
        &&& goes_on(before.reached(), entries)
        &&& self.reached() == before.reached() + entries.len()
    }

    /// What [`Self::unapplied`] and [`Self::drove`] come to: a node in step that
    /// is driven without a snapshot applies the entries that were handed out, and
    /// one that is not driven applies none.
    pub proof fn law_driving_applies_what_is_handed_out(&self, before: &Self, messages: Seq<Message>)
        ensures
            self.unapplied(before) ==> self.applies(before, Seq::empty()),
            self.config() == before.config() && self.drove(before, messages) && before.in_step()
                && !carries_snapshot(ready_of(before.member())) ==> self.applies(
                before,
                ready_committed(ready_of(before.member())) + light_committed(
                    light_of(before.member()),
                ),
            ),
    {
    }

    /// Over a run of steps every committed entry is applied exactly once, in log
    /// order: the state is that behind all entries that were handed out, one
    /// behind the other, and their indexes run on from the first step to the
    /// last.
    pub proof fn law_entries_are_applied_once(run: Seq<Self>, steps: Seq<Seq<EntryModel>>)
        requires
            run.len() == steps.len() + 1,
            forall|i: int|
                0 <= i < steps.len() ==> (#[trigger] run[i + 1]).applies(&run[i], steps[i]),
        ensures
            run.last().applies(&run[0], steps.flatten()),
        decreases steps.len(),
    {
        let first = run[0];
        if steps.len() == 0 {
            steps.lemma_flatten_and_flatten_alt_are_equivalent();
            assert(steps.flatten() =~= Seq::<EntryModel>::empty());
        } else {
            let n = steps.len() - 1;
            let front = run.drop_last();
            let fewer = steps.drop_last();
            assert forall|i: int| 0 <= i < fewer.len() implies (#[trigger] front[i + 1]).applies(
                &front[i],
                fewer[i],
            ) by {
                assert(run[i + 1].applies(&run[i], steps[i]));
            }
            Self::law_entries_are_applied_once(front, fewer);
            assert(run[n + 1].applies(&run[n], steps[n]));
            steps.lemma_flatten_and_flatten_alt_are_equivalent();
            fewer.lemma_flatten_and_flatten_alt_are_equivalent();
            let all = fewer.flatten() + steps[n];
            assert(steps.flatten() == all);
            law_log_in_parts::<S>(first.config(), first.state(), fewer.flatten(), steps[n]);
            assert forall|i: int| 0 <= i < all.len() implies (#[trigger] all[i]).index
                == first.reached() + 1 + i by {
                let k = fewer.flatten().len() as int;
                if i >= k {
                    assert(all[i] == steps[n][i - k]);
                } else {
                    assert(all[i] == fewer.flatten()[i]);
                }
            }
        }
    }

    /// Member `id` of the group with these voters, with a fresh service. All
    /// members are created with the same voters.
    pub fn new(id: u64, voters: Vec<u64>, service_config: &S::Config) -> (r: Result<
        Self,
        StepError,
    >)
        requires
            distinct_members(voters@),
            id != 0 ==> voters@.contains(id),
        ensures
            r is Ok <==> id != 0,
            r matches Ok(n) ==> {
                &&& n.wf()
                &&& voters_of(n.member()) == voters@
                &&& stored_entries(n.member()) == Seq::<EntryModel>::empty()
                &&& stored_hard(n.member()) == (HardModel { term: 0, vote: 0, commit: 0 })
                &&& n.config() == *service_config
                &&& n.state() == S::genesis_state(*service_config)
                &&& n.reached() == 0
                &&& n.in_step()
                &&& standing_of(n.member()) == newcomer()
                &&& !is_transferring(n.member())
                &&& log_data(n.member()) == Seq::<Seq<u8>>::empty()
            },
    {
        refused(check_config(id, ELECTION_TICK, HEARTBEAT_TICK))?;
        let known = voters.clone();
        assert(known@ =~= voters@);
        let member = refused(raw_new(id, ELECTION_TICK, HEARTBEAT_TICK, voters))?;
        Ok(
            ServiceNode {
                member,
                service: S::genesis(service_config),
                applied: 0,
                outputs: OutBuf::new(),
                timer_ops: Vec::new(),
                voters: known,
            },
        )
    }

    /// Advances the logical clock by one tick. Returns whether that brought
    /// something to handle. A leader goes on leading.
    /// All of the member that does not hang on the next timeout follows from what
    /// it was; where no timeout passed, all of it does.
    pub fn tick(&mut self) -> (r: bool)
        requires
            old(self).wf(),
        ensures
            final(self).wf(),
            same_group(old(self).member(), final(self).member()),
            same_store(old(self).member(), final(self).member()),
            final(self).unapplied(old(self)),
            r == tick_is_due(old(self).member()),
            is_leading(old(self).member()) || !r ==> final(self).member() == ticked(
                old(self).member(),
            ) && final(self).stands_still(old(self)),
            standing_of(final(self).member()) == tick_standing(old(self).member()),
            log_data(final(self).member()) == tick_log(old(self).member()),
            old(self).in_step() ==> final(self).in_step(),
            is_transferring(final(self).member()) ==> is_transferring(old(self).member()),
    {
        raw_tick(&mut self.member)
    }

    /// Stands for election at once. A leader is not touched.
    pub fn campaign(&mut self) -> (r: Result<(), StepError>)
        requires
            old(self).wf(),
        ensures
            final(self).wf(),
            same_group(old(self).member(), final(self).member()),
            same_store(old(self).member(), final(self).member()),
            r is Ok,
            final(self).unapplied(old(self)),
            standing_of(final(self).member()) == campaigned(old(self).member()),
            log_data(final(self).member()) == campaign_log(old(self).member()),
            is_leading(old(self).member()) ==> final(self).member() == old(self).member(),
            old(self).in_step() ==> final(self).in_step(),
            is_transferring(final(self).member()) ==> is_transferring(old(self).member()),
    {
        refused(raw_campaign(&mut self.member))
    }

    /// Whether this member believes that it leads.
    pub fn is_leader(&self) -> (r: bool)
        ensures
            r == is_leading(self.member()),
    {
        raw_is_leader(&self.member)
    }

    /// Proposes an input, which then stands at the end of the log and is
    /// applied once a majority holds it. Only a leader can propose, and not
    /// while it hands its leadership over.
    pub fn propose(&mut self, input: &S::Input) -> (r: Result<(), StepError>)
        requires
            old(self).wf(),
            input.encodable(),
        ensures
            final(self).wf(),
            same_group(old(self).member(), final(self).member()),
            same_store(old(self).member(), final(self).member()),
            r is Ok <==> is_leading(old(self).member()) && !is_transferring(old(self).member()),
            final(self).unapplied(old(self)),
            same_role(old(self).member(), final(self).member()),
            standing_of(final(self).member()) == longer(
                standing_of(old(self).member()),
                r is Ok,
            ),
            old(self).in_step() ==> final(self).in_step(),
            !is_leading(old(self).member()) ==> final(self).member() == old(self).member(),
            log_data(final(self).member()) == (if r is Ok {
                log_data(old(self).member()).push(input.bytes())
            } else {
                log_data(old(self).member())
            }),
    {
        if !raw_is_leader(&self.member) {
            return Err(StepError(proposal_dropped()));
        }
        let mut data: Vec<u8> = Vec::new();
        input.encode(&mut data);
        assert(data@ =~= input.bytes());
        refused(raw_propose(&mut self.member, data))
    }

    /// Takes in the message of a peer.
    pub fn step(&mut self, msg: Message) -> (r: Result<(), StepError>)
        requires
            old(self).wf(),
            old(self).expects(msg),
        ensures
            final(self).wf(),
            same_group(old(self).member(), final(self).member()),
            same_store(old(self).member(), final(self).member()),
            final(self).unapplied(old(self)),
            standing_of(final(self).member()) == stood(old(self).member(), msg),
            log_data(final(self).member()) == logged(old(self).member(), msg),
            old(self).in_step() ==> final(self).in_step(),
            is_transferring(final(self).member()) ==> is_transferring(old(self).member())
                || asks_transfer(msg),
            r == answered(step_outcome(old(self).member(), msg)),
    {
        refused(raw_step(&mut self.member, msg))
    }

    /// Takes in a message from anywhere. `None` where it is none that a peer of
    /// the group sends; nothing changes then.
    pub fn step_any(&mut self, msg: Message) -> (r: Option<Result<(), StepError>>)
        requires
            old(self).wf(),
        ensures
            final(self).wf(),
            same_group(old(self).member(), final(self).member()),
            same_store(old(self).member(), final(self).member()),
            final(self).unapplied(old(self)),
            r is Some ==> standing_of(final(self).member()) == stood(old(self).member(), msg)
                && log_data(final(self).member()) == logged(old(self).member(), msg),
            old(self).in_step() ==> final(self).in_step(),
            is_transferring(final(self).member()) ==> is_transferring(old(self).member())
                || asks_transfer(msg),
            r == (if old(self).expects(msg) {
                Some(answered(step_outcome(old(self).member(), msg)))
            } else {
                None
            }),
            r is None ==> *final(self) == *old(self),
    {
        let standing: Standing = raw_standing(&self.member);
        let head = message_head(&msg);
        if !can_take_in(&standing, &self.voters, &head) {
            return None;
        }
        Some(self.step(msg))
    }

    /// Applies committed log entries, in order.
    pub fn apply_committed(&mut self, entries: &Vec<LogEntry>)
        ensures
            final(self).config() == old(self).config(),
            final(self).state() == behind_entries::<S>(
                old(self).config(),
                old(self).state(),
                entries_of(entries@),
            ),
            entries@.len() == 1 && entries@[0].normal && entries@[0].data@.len() > 0 ==> (
            parse_all::<S::Input>(entries@[0].data@) matches Ok(input) ==> final(self).state()
                == S::step(
                old(self).config(),
                old(self).state(),
                entries@[0].index,
                entries@[0].index,
                input,
            ).state),
            final(self).reached() == last_index(old(self).reached(), entries_of(entries@)),
            entries@.len() > 0 ==> final(self).reached() == entries@.last().index,
            final(self).member() == old(self).member(),
            old(self).knows_its_group() ==> final(self).knows_its_group(),
    {
        let ghost all = entries_of(entries@);
        let ghost config = self.config();
        let ghost start = self.state();
        let mut i: usize = 0;
        assert(all.take(0) =~= Seq::empty());
        while i < entries.len()
            invariant
                i <= entries@.len(),
                all == entries_of(entries@),
                self.config() == config,
                self.member == old(self).member,
                self.voters == old(self).voters,
                self.state() == behind_entries::<S>(config, start, all.take(i as int)),
                self.applied == last_index(old(self).applied, all.take(i as int)),
            decreases entries@.len() - i,
        {
            let entry = &entries[i];
            proof {
                assert(all[i as int] == entry@);
                assert(all.take(i + 1).drop_last() =~= all.take(i as int));
                assert(all.take(i + 1).last() == entry@);
            }
            self.applied = entry.index;
            if entry.data.len() > 0 && entry.normal {
                match decode_all::<S::Input>(entry.data.as_slice()) {
                    Err(_) => {},
                    Ok(input) => {
                        let seq: SeqNo = SeqNo(entry.index);
                        self.timer_ops = Vec::new();
                        let mut ctx = Ctx::new(
                            seq,
                            Timestamp(entry.index),
                            &mut self.outputs,
                            &mut self.timer_ops,
                        );
                        self.service.apply(seq, &input, &mut ctx);
                        let _ = self.outputs.drain();
                    },
                }
            }
            i = i + 1;
        }
        assert(all.take(entries@.len() as int) =~= all);
        proof {
            if entries@.len() == 1 {
                assert(all.drop_last() =~= Seq::empty());
                assert(behind_entries::<S>(config, start, all.drop_last()) == start);
                assert(all.last() == entries@[0]@);
            }
        }
    }

    /// Persists and applies what is ready, and returns the messages to send.
    /// What was committed by then is applied in log order, and so is what
    /// persisting commits. Where there is nothing to do, nothing is done.
    pub fn drive_ready(&mut self) -> (r: Vec<Message>)
        requires
            old(self).wf(),
        ensures
            final(self).wf(),
            final(self).config() == old(self).config(),
            same_group(old(self).member(), final(self).member()),
            same_role(old(self).member(), final(self).member()),
            !has_work(old(self).member()) ==> *final(self) == *old(self) && r@.len() == 0,
            has_work(old(self).member()) ==> final(self).drove(old(self), r@),
    {
        let ghost config = self.config();
        let ghost start = self.state();
        if !raw_has_ready(&self.member) {
            return Vec::new();
        }
        let mut ready = raw_ready(&mut self.member);
        let mut messages = take_messages(&mut ready);
        if has_snapshot(&ready) {
            let _ = store_snapshot(&mut self.member, &ready);
        }
        let ghost first = ready_committed(ready);
        let committed = take_committed(&mut ready);
        self.apply_committed(&committed);
        assert(self.state() == behind_entries::<S>(config, start, first));
        assert(self.member == snapped(old(self).member()));
        let _ = store_entries(&mut self.member, &ready);
        if let Some(state) = hard_state(&ready) {
            store_hard_state(&mut self.member, state);
        }
        assert(self.member == stored(old(self).member()));
        let mut persisted = take_persisted_messages(&mut ready);
        messages.append(&mut persisted);
        let ghost applied = handed_out(self.member);
        let mut light = raw_advance(&mut self.member, ready);
        assert(light == light_of(old(self).member()));
        if let Some(commit) = commit_index(&light) {
            store_commit(&mut self.member, commit);
        }
        let mut more = take_light_messages(&mut light);
        messages.append(&mut more);
        let ghost second = light_committed(light);
        let committed = take_light_committed(&mut light);
        self.apply_committed(&committed);
        raw_advance_apply(&mut self.member);
        proof {
            law_log_in_parts::<S>(config, start, first, second);
            if second.len() > 0 {
                assert((first + second).last() == second.last());
            } else {
                assert(first + second =~= first);
            }
            assert(self.member == driven(old(self).member()));
            if old(self).in_step() && !carries_snapshot(ready_of(old(self).member())) {
                assert forall|i: int| 0 <= i < (first + second).len() implies (#[trigger] (first
                    + second)[i]).index == old(self).reached() + 1 + i by {
                    if i >= first.len() {
                        assert(second[i - first.len()].index == applied + 1 + (i - first.len()));
                    } else {
                        assert(first[i].index == old(self).reached() + 1 + i);
                    }
                }
            }
        }
        messages
    }

    /// The highest log index applied.
    pub fn applied_index(&self) -> (r: u64)
        ensures
            r == self.reached(),
    {
        self.applied
    }

    pub fn service(&self) -> (r: &S)
        ensures
            r.state() == self.state(),
            r.config() == self.config(),
    {
        &self.service
    }
}

/// A new member begins as a follower in no term with an empty log; an entry that
/// it appends is its last from then on, and nothing else of where it stands
/// changes.
pub proof fn law_appending_lengthens_the_log(s: Standing)
    ensures
        newcomer().term == 0 && newcomer().last_index == 0 && newcomer().persisted == 0,
        !newcomer().leader && !newcomer().candidate,
        longer(s, false) == s,
        s.last_index < u64::MAX ==> longer(s, true).last_index == s.last_index + 1,
        longer(s, true).term == s.term,
        longer(s, true).persisted == s.persisted,
        longer(s, true).leader == s.leader,
        longer(s, true).candidate == s.candidate,
{
}

/// A member of a group needs a number of its own and a heartbeat that is shorter
/// than the timeout after which it stands for election: three ticks and ten.
pub proof fn law_heartbeats_are_shorter_than_timeouts(
    id: u64,
    election_tick: usize,
    heartbeat_tick: usize,
)
    ensures
        valid_config(id, election_tick, heartbeat_tick) <==> id >= 1 && 1 <= heartbeat_tick
            && heartbeat_tick + 1 <= election_tick,
        id >= 1 ==> valid_config(id, ELECTION_TICK, HEARTBEAT_TICK),
        ELECTION_TICK == 10 && HEARTBEAT_TICK == 3,
{
}

/// What peers send in the course of things is taken in: entries in terms that
/// follow one another behind an index that the member has, heartbeats that commit
/// no more than it has, requests for its vote, and acknowledgements of what it
/// has. In a group of one nobody is heard, and a snapshot from a peer never is.
pub proof fn law_peers_are_heard(s: Standing, voters: Seq<u64>, h: HeadModel)
    ensures
        voters.len() > 1 && 0 < h.term < TERM_LIMIT && h.kind == MSG_APPEND && h.index
            <= s.last_index && (forall|i: int|
            0 <= i < h.entries.len() ==> #[trigger] h.entries[i] == h.index + 1 + i) && (forall|
            i: int,
        |
            0 <= i < h.entry_terms.len() ==> #[trigger] h.entry_terms[i] != 0) ==> takes_in(
            s,
            voters,
            h,
        ),
        voters.len() > 1 && 0 < h.term < TERM_LIMIT && h.kind == MSG_HEARTBEAT && h.commit
            <= s.last_index ==> takes_in(s, voters, h),
        voters.len() > 1 && 0 < h.term < TERM_LIMIT && h.kind == MSG_REQUEST_VOTE ==> takes_in(
            s,
            voters,
            h,
        ),
        voters.len() > 1 && 0 < h.term < TERM_LIMIT && h.kind == MSG_REQUEST_VOTE_RESPONSE
            && s.persisted == s.last_index ==> takes_in(s, voters, h),
        voters.len() > 1 && 0 < h.term < TERM_LIMIT && h.kind == MSG_APPEND_RESPONSE
            && h.request_snapshot == 0 && h.reject_hint < u64::MAX && h.index <= s.last_index
            ==> takes_in(s, voters, h),
        h.kind == MSG_SNAPSHOT ==> !takes_in(s, voters, h),
        h.kind == MSG_APPEND && (h.term == 0 || h.term >= TERM_LIMIT || voters.len() <= 1)
            ==> !takes_in(s, voters, h),
        h.kind == MSG_HEARTBEAT && (h.term == 0 || h.term >= TERM_LIMIT || voters.len() <= 1)
            ==> !takes_in(s, voters, h),
        h.kind == MSG_HEARTBEAT && h.commit > s.last_index && h.term > s.term ==> !takes_in(
            s,
            voters,
            h,
        ),
        h.kind == MSG_HUP || h.kind == MSG_BEAT ==> takes_in(s, voters, h),
{
}

/// What a member has stored about elections and commits behind what was ready is
/// what it was told to store, and what it had where it was told nothing; a commit
/// that persisting brings about counts last.
pub proof fn law_last_commit_counts(member: Member)
    ensures
        light_commit(light_of(member)) matches Some(commit) ==> hard_behind(member).commit
            == commit,
        ready_hard_state(ready_of(member)) matches Some(state) ==> {
            &&& hard_behind(member).term == hard_of(state).term
            &&& hard_behind(member).vote == hard_of(state).vote
            &&& light_commit(light_of(member)) is None ==> hard_behind(member).commit
                == hard_of(state).commit
        },
        ready_hard_state(ready_of(member)) is None ==> {
            &&& hard_behind(member).term == stored_hard(member).term
            &&& hard_behind(member).vote == stored_hard(member).vote
            &&& light_commit(light_of(member)) is None ==> hard_behind(member).commit
                == stored_hard(member).commit
        },
{
}

} // verus!
