//! Epoch-lease leader election: majority grants.
//!
//! An [`Acceptor`] grants an epoch only if it is strictly greater than any
//! epoch it has already promised. So each acceptor grants an epoch at most
//! once, and since winning requires a majority of grants and two majorities
//! always intersect, at most one candidate can ever win an epoch.
//!
//! Grants carry the acceptor's journal high-water. A winner must sync to the
//! highest one among its granting majority before sequencing.

use vstd::prelude::*;

use crate::commit::{majority, majority_of};
use crate::seq::SeqNo;

verus! {

/// A candidate's request for the lease on `epoch`.
#[derive(Debug, Clone, Copy, PartialEq, Eq, Structural)]
pub struct VoteRequest {
    pub epoch: u64,
}

/// An acceptor's answer.
#[derive(Debug, Clone, Copy, PartialEq, Eq, Structural)]
pub enum VoteReply {
    /// The lease on this epoch is granted; `high_water` is the last seq this
    /// acceptor's replica has journaled.
    Grant { epoch: u64, high_water: SeqNo },
    /// Refused: the acceptor has already promised `promised` (at least the
    /// requested epoch).
    Reject { promised: u64 },
}

/// One voter's election state.
#[derive(Debug)]
pub struct Acceptor {
    promised: u64,
    high_water: SeqNo,
}

/// What an acceptor that has promised `promised` answers.
pub open spec fn vote(promised: u64, high_water: u64, epoch: u64) -> VoteReply {
    if epoch > promised {
        VoteReply::Grant { epoch, high_water: SeqNo(high_water) }
    } else {
        VoteReply::Reject { promised }
    }
}

/// What an acceptor has promised after answering.
pub open spec fn promised_after(promised: u64, epoch: u64) -> u64 {
    if epoch > promised {
        epoch
    } else {
        promised
    }
}

/// What an acceptor has promised after answering `epochs`, one by one.
pub open spec fn promised_after_all(promised: u64, epochs: Seq<u64>) -> u64
    decreases epochs.len(),
{
    if epochs.len() == 0 {
        promised
    } else {
        promised_after(promised_after_all(promised, epochs.drop_last()), epochs.last())
    }
}

/// Whether the `i`-th of `epochs` is granted.
pub open spec fn is_granted(promised: u64, epochs: Seq<u64>, i: int) -> bool {
    vote(promised_after_all(promised, epochs.take(i)), 0, epochs[i]) is Grant
}

proof fn lemma_promises_rise(promised: u64, epochs: Seq<u64>, i: int, j: int)
    requires
        0 <= i <= j <= epochs.len(),
    ensures
        promised_after_all(promised, epochs.take(i)) <= promised_after_all(
            promised,
            epochs.take(j),
        ),
    decreases j - i,
{
    if i < j {
        lemma_promises_rise(promised, epochs, i, j - 1);
        assert(epochs.take(j).drop_last() =~= epochs.take(j - 1));
    }
}

/// An acceptor grants no epoch twice: its grants go strictly up.
pub proof fn law_no_epoch_is_granted_twice(promised: u64, epochs: Seq<u64>, i: int, j: int)
    requires
        0 <= i < j < epochs.len(),
        is_granted(promised, epochs, i),
        is_granted(promised, epochs, j),
    ensures
        epochs[i] < epochs[j],
{
    lemma_promises_rise(promised, epochs, i + 1, j);
    assert(epochs.take(i + 1).drop_last() =~= epochs.take(i));
    assert(epochs.take(i + 1).last() == epochs[i]);
}

/// A request that reached a voter: who bids for which epoch, and the high-water
/// that the voter had then.
pub struct Bid {
    pub candidate: u32,
    pub epoch: u64,
    pub high_water: u64,
}

/// What a voter had promised at first, and the requests that reached it since.
pub struct Ballots {
    pub promised: u64,
    pub bids: Seq<Bid>,
}

impl Ballots {
    /// The epochs that the voter was asked for.
    pub open spec fn epochs(self) -> Seq<u64> {
        self.bids.map_values(|b: Bid| b.epoch)
    }

    /// What the voter answers to its `i`-th request.
    pub open spec fn reply(self, i: int) -> VoteReply {
        vote(
            promised_after_all(self.promised, self.epochs().take(i)),
            self.bids[i].high_water,
            self.bids[i].epoch,
        )
    }

    /// The `i`-th request is one of this candidate for this epoch.
    pub open spec fn is_bid(self, epoch: u64, candidate: u32, i: int) -> bool {
        0 <= i < self.bids.len() && self.bids[i].epoch == epoch && self.bids[i].candidate
            == candidate
    }

    /// The voter grants the epoch to the candidate.
    pub open spec fn grants(self, epoch: u64, candidate: u32) -> bool {
        exists|i: int| self.is_bid(epoch, candidate, i) && #[trigger] self.reply(i) is Grant
    }
}

/// The voters that grant the epoch to the candidate.
pub open spec fn granters(voters: Map<u32, Ballots>, epoch: u64, candidate: u32) -> Set<u32> {
    Set::new(|v: u32| voters.contains_key(v) && voters[v].grants(epoch, candidate))
}

/// A voter grants an epoch to one candidate only.
pub proof fn law_an_epoch_is_granted_to_one(v: Ballots, epoch: u64, a: u32, b: u32)
    requires
        v.grants(epoch, a),
        v.grants(epoch, b),
    ensures
        a == b,
{
    let i = choose|i: int| v.is_bid(epoch, a, i) && #[trigger] v.reply(i) is Grant;
    let j = choose|j: int| v.is_bid(epoch, b, j) && #[trigger] v.reply(j) is Grant;
    let epochs = v.epochs();
    assert(is_granted(v.promised, epochs, i));
    assert(is_granted(v.promised, epochs, j));
    if i < j {
        law_no_epoch_is_granted_twice(v.promised, epochs, i, j);
    } else if j < i {
        law_no_epoch_is_granted_twice(v.promised, epochs, j, i);
    }
}

/// However requests reach the voters, of two candidates at most one is granted
/// an epoch by a majority of them.
pub proof fn law_one_majority_per_epoch(voters: Map<u32, Ballots>, epoch: u64, a: u32, b: u32)
    requires
        voters.dom().finite(),
        a != b,
    ensures
        granters(voters, epoch, a).len() < majority_of(voters.dom().len()) || granters(
            voters,
            epoch,
            b,
        ).len() < majority_of(voters.dom().len()),
{
    let ga = granters(voters, epoch, a);
    let gb = granters(voters, epoch, b);
    let needed = majority_of(voters.dom().len());
    if ga.len() >= needed && gb.len() >= needed {
        crate::commit::law_majorities_intersect(voters.dom(), ga, gb);
        let v = choose|v: u32| ga.contains(v) && gb.contains(v);
        assert(ga.contains(v) && gb.contains(v));
        law_an_epoch_is_granted_to_one(voters[v], epoch, a, b);
    }
}

/// The tally behind replies, each with the voter that sent it.
pub open spec fn counted(tally: Tally, replies: Seq<(u32, VoteReply)>) -> Tally
    decreases replies.len(),
{
    if replies.len() == 0 {
        tally
    } else {
        counted(tally, replies.drop_last()).with(replies.last().0, replies.last().1)
    }
}

/// The replies are some that the voters gave to this candidate's requests for
/// the epoch, in any order and any number.
pub open spec fn answers_bid(
    voters: Map<u32, Ballots>,
    epoch: u64,
    candidate: u32,
    replies: Seq<(u32, VoteReply)>,
) -> bool {
    forall|k: int|
        0 <= k < replies.len() ==> voters.contains_key((#[trigger] replies[k]).0) && exists|i: int|
            voters[replies[k].0].is_bid(epoch, candidate, i) && replies[k].1
                == #[trigger] voters[replies[k].0].reply(i)
}

/// The reply grants the epoch.
pub open spec fn is_grant_of(reply: VoteReply, epoch: u64) -> bool {
    reply is Grant && reply->epoch == epoch
}

proof fn lemma_counted(epoch: u64, voters: nat, replies: Seq<(u32, VoteReply)>)
    ensures
        ({
            let tally = counted(Tally::opened(epoch, voters), replies);
            &&& tally.epoch == epoch
            &&& tally.needed == majority_of(voters)
            &&& tally.granters.finite()
            &&& forall|v: u32| #[trigger]
                tally.granters.contains(v) ==> exists|k: int|
                    0 <= k < replies.len() && (#[trigger] replies[k]).0 == v && is_grant_of(
                        replies[k].1,
                        epoch,
                    )
            &&& forall|k: int|
                0 <= k < replies.len() && is_grant_of((#[trigger] replies[k]).1, epoch)
                    ==> tally.granters.contains(replies[k].0) && replies[k].1->high_water.0
                    <= tally.sync_to
            &&& tally.granters.len() > 0 ==> exists|k: int|
                0 <= k < replies.len() && is_grant_of((#[trigger] replies[k]).1, epoch)
                    && replies[k].1->high_water.0 == tally.sync_to
            &&& tally.granters.len() == 0 ==> tally.sync_to == 0
        }),
    decreases replies.len(),
{
    if replies.len() > 0 {
        let init = replies.drop_last();
        let n = init.len() as int;
        lemma_counted(epoch, voters, init);
        let before = counted(Tally::opened(epoch, voters), init);
        let tally = counted(Tally::opened(epoch, voters), replies);
        let (from, reply) = replies.last();
        assert(replies[n] == (from, reply));
        assert forall|k: int| 0 <= k < n implies #[trigger] init[k] == replies[k] by {}
        assert forall|v: u32| #[trigger] tally.granters.contains(v) implies exists|k: int|
            0 <= k < replies.len() && (#[trigger] replies[k]).0 == v && is_grant_of(
                replies[k].1,
                epoch,
            ) by {
            if before.granters.contains(v) {
                let k = choose|k: int|
                    0 <= k < init.len() && (#[trigger] init[k]).0 == v && is_grant_of(
                        init[k].1,
                        epoch,
                    );
                assert(replies[k].0 == v);
            } else {
                assert(replies[n].0 == v);
            }
        }
        assert forall|k: int| 0 <= k < replies.len() && is_grant_of((#[trigger] replies[k]).1, epoch)
            implies tally.granters.contains(replies[k].0) && replies[k].1->high_water.0
            <= tally.sync_to by {
            if k < n {
                assert(init[k] == replies[k]);
            }
        }
        if tally.granters.len() > 0 {
            if is_grant_of(reply, epoch) && tally.sync_to == reply->high_water.0 {
                assert(is_grant_of(replies[n].1, epoch));
            } else {
                if before.granters.len() == 0 {
                    assert(before.granters =~= Set::<u32>::empty());
                    assert(before.sync_to == 0);
                    assert(!is_grant_of(reply, epoch));
                    assert(false);
                }
                let k = choose|k: int|
                    0 <= k < init.len() && is_grant_of((#[trigger] init[k]).1, epoch)
                        && init[k].1->high_water.0 == before.sync_to;
                assert(is_grant_of(replies[k].1, epoch));
            }
        }
    }
}

/// A bid that is won is won for its own epoch, by grants of a majority of
/// distinct voters, and syncs to the highest high-water among its grants.
pub proof fn law_won_by_a_majority(epoch: u64, voters: nat, replies: Seq<(u32, VoteReply)>)
    requires
        counted(Tally::opened(epoch, voters), replies).result() is Won,
    ensures
        ({
            let tally = counted(Tally::opened(epoch, voters), replies);
            &&& tally.result()->epoch == epoch
            &&& tally.granters.finite() && tally.granters.len() >= majority_of(voters)
            &&& forall|v: u32| #[trigger]
                tally.granters.contains(v) <==> exists|k: int|
                    0 <= k < replies.len() && (#[trigger] replies[k]).0 == v && is_grant_of(
                        replies[k].1,
                        epoch,
                    )
            &&& forall|k: int|
                0 <= k < replies.len() && is_grant_of((#[trigger] replies[k]).1, epoch)
                    ==> replies[k].1->high_water.0 <= tally.result()->sync_to.0
            &&& exists|k: int|
                0 <= k < replies.len() && is_grant_of((#[trigger] replies[k]).1, epoch)
                    && replies[k].1->high_water.0 == tally.result()->sync_to.0
        }),
{
    lemma_counted(epoch, voters, replies);
}

/// At most one candidate wins an epoch: two that hear only the replies to their
/// own requests are not both told that they won.
pub proof fn law_at_most_one_winner(
    voters: Map<u32, Ballots>,
    epoch: u64,
    a: u32,
    b: u32,
    to_a: Seq<(u32, VoteReply)>,
    to_b: Seq<(u32, VoteReply)>,
)
    requires
        voters.dom().finite(),
        a != b,
        answers_bid(voters, epoch, a, to_a),
        answers_bid(voters, epoch, b, to_b),
    ensures
        !(counted(Tally::opened(epoch, voters.dom().len()), to_a).result() is Won && counted(
            Tally::opened(epoch, voters.dom().len()),
            to_b,
        ).result() is Won),
{
    lemma_granters_granted(voters, epoch, a, to_a);
    lemma_granters_granted(voters, epoch, b, to_b);
    law_one_majority_per_epoch(voters, epoch, a, b);
}

/// Who granted a bid is among the voters that grant the epoch to its candidate.
proof fn lemma_granters_granted(
    voters: Map<u32, Ballots>,
    epoch: u64,
    candidate: u32,
    replies: Seq<(u32, VoteReply)>,
)
    requires
        voters.dom().finite(),
        answers_bid(voters, epoch, candidate, replies),
    ensures
        counted(Tally::opened(epoch, voters.dom().len()), replies).granters.len() <= granters(
            voters,
            epoch,
            candidate,
        ).len(),
        counted(Tally::opened(epoch, voters.dom().len()), replies).needed == majority_of(
            voters.dom().len(),
        ),
{
    lemma_counted(epoch, voters.dom().len(), replies);
    let heard = counted(Tally::opened(epoch, voters.dom().len()), replies).granters;
    let all = granters(voters, epoch, candidate);
    assert forall|v: u32| heard.contains(v) implies all.contains(v) by {
        let k = choose|k: int|
            0 <= k < replies.len() && (#[trigger] replies[k]).0 == v && is_grant_of(
                replies[k].1,
                epoch,
            );
        let i = choose|i: int|
            voters[replies[k].0].is_bid(epoch, candidate, i) && replies[k].1
                == #[trigger] voters[replies[k].0].reply(i);
        assert(voters[v].reply(i) is Grant);
    }
    assert(all.subset_of(voters.dom()));
    vstd::set_lib::lemma_len_subset(all, voters.dom());
    vstd::set_lib::lemma_len_subset(heard, all);
}

/// A winner that syncs to the highest high-water of its granting majority
/// holds every committed seq: some granter holds it.
pub proof fn law_winner_covers_what_is_committed(
    voters: Set<u32>,
    granters: Set<u32>,
    high_waters: Map<u32, u64>,
    committed: u64,
    sync_to: u64,
)
    requires
        voters.finite(),
        granters.subset_of(voters),
        granters.len() >= majority_of(voters.len()),
        crate::commit::holders(high_waters, committed).subset_of(voters),
        crate::commit::holders(high_waters, committed).len() >= majority_of(voters.len()),
        forall|v: u32| #[trigger]
            granters.contains(v) && high_waters.contains_key(v) ==> high_waters[v] <= sync_to,
    ensures
        committed <= sync_to,
{
    let h = crate::commit::holders(high_waters, committed);
    crate::commit::law_majorities_intersect(voters, granters, h);
    let v = choose|v: u32| granters.contains(v) && h.contains(v);
    assert(granters.contains(v) && h.contains(v));
}

impl Acceptor {
    /// The highest epoch promised so far.
    pub closed spec fn promise(&self) -> u64 {
        self.promised
    }

    /// The journal high-water reported in grants.
    pub closed spec fn mark(&self) -> u64 {
        self.high_water.0
    }

    pub fn new() -> (r: Self)
        ensures
            r.promise() == 0,
            r.mark() == 0,
    {
        Acceptor { promised: 0, high_water: SeqNo(0) }
    }

    /// Updates the journal high-water this acceptor reports in grants.
    pub fn observe_seq(&mut self, seq: SeqNo)
        ensures
            final(self).promise() == old(self).promise(),
            final(self).mark() == (if seq.0 > old(self).mark() {
                seq.0
            } else {
                old(self).mark()
            }),
    {
        if seq.0 > self.high_water.0 {
            self.high_water = seq;
        }
    }

    /// Resets the reported high-water after a fence truncated the co-located
    /// journal: a high-water may only vouch for frames consistent with the
    /// current epoch's history.
    pub fn reset_high_water(&mut self, seq: SeqNo)
        ensures
            final(self).promise() == old(self).promise(),
            final(self).mark() == seq.0,
    {
        self.high_water = seq;
    }

    /// The highest epoch promised so far (persist this before replying).
    pub fn promised(&self) -> (r: u64)
        ensures
            r == self.promise(),
    {
        self.promised
    }

    pub fn handle(&mut self, request: VoteRequest) -> (r: VoteReply)
        ensures
            r == vote(old(self).promise(), old(self).mark(), request.epoch),
            final(self).promise() == promised_after(old(self).promise(), request.epoch),
            final(self).mark() == old(self).mark(),
    {
        if request.epoch > self.promised {
            self.promised = request.epoch;
            VoteReply::Grant { epoch: request.epoch, high_water: self.high_water }
        } else {
            VoteReply::Reject { promised: self.promised }
        }
    }
}

impl Default for Acceptor {
    fn default() -> (r: Self)
        ensures
            r.promise() == 0,
            r.mark() == 0,
    {
        Acceptor::new()
    }
}

/// What an [`Election`] has concluded so far.
#[derive(Debug, Clone, Copy, PartialEq, Eq, Structural)]
pub enum ElectionOutcome {
    /// Not enough replies yet.
    Pending,
    /// Majority granted. `sync_to` is the highest high-water among granters:
    /// the winner must hold every frame up to it before sequencing.
    Won { epoch: u64, sync_to: SeqNo },
    /// A rejection revealed a promised epoch at or above ours; retry higher.
    Lost { highest_promised: u64 },
}

/// A candidate's tally for one epoch attempt.
#[derive(Debug)]
pub struct Election {
    epoch: u64,
    needed: usize,
    granters: Vec<u32>,
    sync_to: SeqNo,
    highest_promised: u64,
    lost: bool,
}

/// What a tally holds.
#[verifier::ext_equal]
pub struct Tally {
    pub epoch: u64,
    pub needed: nat,
    pub granters: Set<u32>,
    pub sync_to: u64,
    pub highest_promised: u64,
    pub lost: bool,
}

impl Tally {
    /// The tally of a bid that has heard nothing, among so many voters.
    pub open spec fn opened(epoch: u64, voters: nat) -> Tally {
        Tally {
            epoch,
            needed: majority_of(voters),
            granters: Set::empty(),
            sync_to: 0,
            highest_promised: 0,
            lost: false,
        }
    }

    /// The tally with one more reply: a grant of this epoch counts once per
    /// acceptor, one of another epoch not at all.
    pub open spec fn with(self, from: u32, reply: VoteReply) -> Tally {
        match reply {
            VoteReply::Grant { epoch, high_water } => if epoch == self.epoch {
                Tally {
                    granters: self.granters.insert(from),
                    sync_to: if high_water.0 > self.sync_to {
                        high_water.0
                    } else {
                        self.sync_to
                    },
                    ..self
                }
            } else {
                self
            },
            VoteReply::Reject { promised } => Tally {
                highest_promised: if promised > self.highest_promised {
                    promised
                } else {
                    self.highest_promised
                },
                lost: self.lost || promised >= self.epoch,
                ..self
            },
        }
    }

    pub open spec fn result(self) -> ElectionOutcome {
        if self.granters.len() >= self.needed {
            ElectionOutcome::Won { epoch: self.epoch, sync_to: SeqNo(self.sync_to) }
        } else if self.lost {
            ElectionOutcome::Lost { highest_promised: self.highest_promised }
        } else {
            ElectionOutcome::Pending
        }
    }
}

impl View for Election {
    type V = Tally;

    closed spec fn view(&self) -> Tally {
        Tally {
            epoch: self.epoch,
            needed: self.needed as nat,
            granters: self.granters@.to_set(),
            sync_to: self.sync_to.0,
            highest_promised: self.highest_promised,
            lost: self.lost,
        }
    }
}

impl Election {
    #[verifier::type_invariant]
    spec fn wf(&self) -> bool {
        self.granters@.no_duplicates()
    }

    /// Starts a bid for `epoch` in a cluster of `voters` acceptors.
    pub fn new(epoch: u64, voters: usize) -> (r: Self)
        ensures
            r@ == Tally::opened(epoch, voters as nat),
    {
        let r = Election {
            epoch,
            needed: majority(voters),
            granters: Vec::new(),
            sync_to: SeqNo(0),
            highest_promised: 0,
            lost: false,
        };
        assert(r.granters@.to_set() =~= Set::<u32>::empty());
        r
    }

    pub fn request(&self) -> (r: VoteRequest)
        ensures
            r.epoch == self@.epoch,
    {
        VoteRequest { epoch: self.epoch }
    }

    /// Records one acceptor's reply (duplicates from the same acceptor are
    /// counted once).
    pub fn on_reply(&mut self, from: u32, reply: VoteReply) -> (r: ElectionOutcome)
        ensures
            final(self)@ == old(self)@.with(from, reply),
            r == final(self)@.result(),
    {
        proof {
            use_type_invariant(&*self);
        }
        match reply {
            VoteReply::Grant { epoch, high_water } => {
                if epoch == self.epoch {
                    self.add_granter(from);
                    proof {
                        use_type_invariant(&*self);
                    }
                    if high_water.0 > self.sync_to.0 {
                        self.sync_to = high_water;
                    }
                }
            },
            VoteReply::Reject { promised } => {
                if promised > self.highest_promised {
                    self.highest_promised = promised;
                }
                if promised >= self.epoch {
                    self.lost = true;
                }
            },
        }
        self.outcome()
    }

    fn add_granter(&mut self, from: u32)
        ensures
            final(self)@ == (Tally { granters: old(self)@.granters.insert(from), ..old(self)@ }),
    {
        proof {
            use_type_invariant(&*self);
        }
        let ghost start = self.granters@;
        let mut granters: Vec<u32> = Vec::new();
        std::mem::swap(&mut granters, &mut self.granters);
        let mut known: bool = false;
        let mut i: usize = 0;
        while i < granters.len()
            invariant
                i <= granters@.len(),
                granters@ == start,
                known == exists|k: int| 0 <= k < i && start[k] == from,
            decreases granters@.len() - i,
        {
            if granters[i] == from {
                assert(start[i as int] == from);
                known = true;
            }
            i = i + 1;
        }
        if !known {
            granters.push(from);
            proof {
                assert(granters@.no_duplicates());
                start.lemma_push_to_set_commute(from);
            }
        } else {
            proof {
                let k = choose|k: int| 0 <= k < start.len() && start[k] == from;
                assert(start.contains(from));
                assert(start.to_set() =~= start.to_set().insert(from));
            }
        }
        self.granters = granters;
    }

    pub fn outcome(&self) -> (r: ElectionOutcome)
        ensures
            r == self@.result(),
    {
        proof {
            use_type_invariant(self);
            self.granters@.unique_seq_to_set();
        }
        if self.granters.len() >= self.needed {
            ElectionOutcome::Won { epoch: self.epoch, sync_to: self.sync_to }
        } else if self.lost {
            ElectionOutcome::Lost { highest_promised: self.highest_promised }
        } else {
            ElectionOutcome::Pending
        }
    }
}

/// One blocking round of an election over the voters `0, 1, ..`: whom to ask
/// next, and what their answers amount to.
pub struct ElectionRun {
    election: Election,
    voters: u32,
    asked: u32,
    answers: Ghost<Seq<Option<VoteReply>>>,
}

impl ElectionRun {
    pub closed spec fn wf(&self) -> bool {
        &&& self.asked <= self.voters
        &&& self.answers@.len() == self.asked
        &&& self.election@ == tallied(self.election@.epoch, self.voters as nat, self.answers@)
    }

    /// The answers recorded so far.
    pub closed spec fn answers(&self) -> Seq<Option<VoteReply>> {
        self.answers@
    }

    pub closed spec fn epoch(&self) -> u64 {
        self.election@.epoch
    }

    pub closed spec fn voters(&self) -> nat {
        self.voters as nat
    }

    /// Whether the answers so far win the election.
    pub open spec fn is_won(&self) -> bool {
        tallied(self.epoch(), self.voters(), self.answers()).result() is Won
    }

    pub fn new(epoch: u64, voters: u32) -> (r: Self)
        ensures
            r.wf(),
            r.epoch() == epoch,
            r.voters() == voters,
            r.answers() == Seq::<Option<VoteReply>>::empty(),
    {
        let election = Election::new(epoch, voters as usize);
        let answers = Ghost(Seq::<Option<VoteReply>>::empty());
        ElectionRun { election, voters, asked: 0, answers }
    }

    /// The voter to ask next; nobody once the election is won or all were
    /// asked.
    pub fn next_voter(&self) -> (r: Option<u32>)
        requires
            self.wf(),
        ensures
            r == (if self.is_won() || self.answers().len() >= self.voters() {
                None
            } else {
                Some(self.answers().len() as u32)
            }),
    {
        if self.asked >= self.voters {
            return None;
        }
        match self.election.outcome() {
            ElectionOutcome::Won { .. } => None,
            _ => Some(self.asked),
        }
    }

    /// Records the answer of the voter that was asked; `None` where it could
    /// not be reached or its reply was malformed.
    pub fn on_answer(&mut self, answer: Option<VoteReply>)
        requires
            old(self).wf(),
            old(self).answers().len() < old(self).voters(),
        ensures
            final(self).wf(),
            final(self).answers() == old(self).answers().push(answer),
            final(self).epoch() == old(self).epoch(),
            final(self).voters() == old(self).voters(),
    {
        proof {
            lemma_tallied_push(self.epoch(), self.voters(), self.answers@, answer);
        }
        if let Some(reply) = answer {
            let _ = self.election.on_reply(self.asked, reply);
        }
        self.asked = self.asked + 1;
        self.answers = Ghost(self.answers@.push(answer));
    }

    /// Where the election stands.
    pub fn outcome(&self) -> (r: ElectionOutcome)
        requires
            self.wf(),
        ensures
            r == tallied(self.epoch(), self.voters(), self.answers()).result(),
    {
        self.election.outcome()
    }
}

/// The tally after the first answers of an election among `voters`.
pub open spec fn tallied(epoch: u64, voters: nat, answers: Seq<Option<VoteReply>>) -> Tally
    decreases answers.len(),
{
    if answers.len() == 0 {
        Tally::opened(epoch, voters)
    } else {
        let before = tallied(epoch, voters, answers.drop_last());
        match answers.last() {
            Some(reply) => before.with((answers.len() - 1) as u32, reply),
            None => before,
        }
    }
}

proof fn lemma_tallied_push(
    epoch: u64,
    voters: nat,
    answers: Seq<Option<VoteReply>>,
    answer: Option<VoteReply>,
)
    ensures
        tallied(epoch, voters, answers.push(answer)) == (match answer {
            Some(reply) => tallied(epoch, voters, answers).with(answers.len() as u32, reply),
            None => tallied(epoch, voters, answers),
        }),
{
    assert(answers.push(answer).drop_last() =~= answers);
}

/// A bid is granted exactly where it outranks everything promised so far; the
/// grant names the epoch and the voter's high-water, a refusal what was promised,
/// and the promise is the higher of the two from then on.
pub proof fn law_higher_bid_is_granted(promised: u64, high_water: u64, epoch: u64)
    ensures
        promised < epoch ==> vote(promised, high_water, epoch) == (VoteReply::Grant {
            epoch,
            high_water: SeqNo(high_water),
        }),
        epoch <= promised ==> vote(promised, high_water, epoch) == (VoteReply::Reject { promised }),
        promised_after(promised, epoch) >= promised,
        promised_after(promised, epoch) >= epoch,
        promised_after(promised, epoch) == promised || promised_after(promised, epoch) == epoch,
{
}

/// How a bid ends: it is won once enough distinct voters granted it, else lost
/// once any voter refused it that had promised the epoch or a higher one, and
/// open until then. A loser is told the highest epoch that it was refused for.
pub proof fn law_outcome_of_a_bid(epoch: u64, voters: nat, replies: Seq<(u32, VoteReply)>, k: int)
    ensures
        ({
            let t = counted(Tally::opened(epoch, voters), replies);
            let refused = exists|j: int|
                0 <= j < replies.len() && ((#[trigger] replies[j]).1 matches VoteReply::Reject {
                    promised,
                } && promised >= epoch);
            &&& t.result() is Won <==> 2 * t.granters.len() > voters
            &&& t.result() is Lost <==> 2 * t.granters.len() <= voters && refused
            &&& t.result() is Pending <==> 2 * t.granters.len() <= voters && !refused
            &&& 0 <= k < replies.len() ==> (replies[k].1 matches VoteReply::Reject { promised }
                ==> promised <= t.highest_promised)
            &&& t.result() matches ElectionOutcome::Lost { highest_promised } ==> highest_promised
                == t.highest_promised && highest_promised >= epoch
            &&& t.highest_promised == 0 || exists|j: int|
                0 <= j < replies.len() && ((#[trigger] replies[j]).1 matches VoteReply::Reject {
                    promised,
                } && promised == t.highest_promised)
        }),
{
    lemma_refusals(epoch, voters, replies, k);
    let t = counted(Tally::opened(epoch, voters), replies);
    if t.lost {
        let j = choose|j: int|
            0 <= j < replies.len() && ((#[trigger] replies[j]).1 matches VoteReply::Reject {
                promised,
            } && promised >= epoch);
        lemma_refusals(epoch, voters, replies, j);
    }
}

proof fn lemma_refusals(epoch: u64, voters: nat, replies: Seq<(u32, VoteReply)>, k: int)
    ensures
        ({
            let t = counted(Tally::opened(epoch, voters), replies);
            &&& t.epoch == epoch
            &&& t.needed == majority_of(voters)
            &&& t.lost <==> exists|j: int|
                0 <= j < replies.len() && ((#[trigger] replies[j]).1 matches VoteReply::Reject {
                    promised,
                } && promised >= epoch)
            &&& 0 <= k < replies.len() ==> (replies[k].1 matches VoteReply::Reject { promised }
                ==> promised <= t.highest_promised)
            &&& t.highest_promised == 0 || exists|j: int|
                0 <= j < replies.len() && ((#[trigger] replies[j]).1 matches VoteReply::Reject {
                    promised,
                } && promised == t.highest_promised)
        }),
    decreases replies.len(),
{
    if replies.len() > 0 {
        let front = replies.drop_last();
        let n = replies.len() - 1;
        lemma_refusals(epoch, voters, front, k);
        let s = counted(Tally::opened(epoch, voters), front);
        let t = counted(Tally::opened(epoch, voters), replies);
        assert(forall|j: int| 0 <= j < front.len() ==> #[trigger] front[j] == replies[j]);
        assert(replies[n] == replies.last());
        if s.lost {
            let j = choose|j: int|
                0 <= j < front.len() && ((#[trigger] front[j]).1 matches VoteReply::Reject {
                    promised,
                } && promised >= epoch);
            assert(replies[j] == front[j]);
        }
        if s.highest_promised != 0 {
            let j = choose|j: int|
                0 <= j < front.len() && ((#[trigger] front[j]).1 matches VoteReply::Reject {
                    promised,
                } && promised == s.highest_promised);
            assert(replies[j] == front[j]);
        }
        if exists|j: int|
            0 <= j < replies.len() && ((#[trigger] replies[j]).1 matches VoteReply::Reject {
                promised,
            } && promised >= epoch) {
            let j = choose|j: int|
                0 <= j < replies.len() && ((#[trigger] replies[j]).1 matches VoteReply::Reject {
                    promised,
                } && promised >= epoch);
            if j < n {
                assert(front[j] == replies[j]);
            }
        }
    }
}

/// Each answer counts for the voter at its place and no other: the granters are
/// the places that hold a grant of the epoch, each of their high-waters is synced
/// to, and the bid is lost once an answer refuses it for the epoch or a higher one.
pub proof fn law_answers_count_by_place(
    epoch: u64,
    voters: nat,
    answers: Seq<Option<VoteReply>>,
    i: int,
)
    requires
        answers.len() <= u32::MAX,
    ensures
        ({
            let t = tallied(epoch, voters, answers);
            &&& t.epoch == epoch
            &&& t.needed == majority_of(voters)
            &&& t.result() is Won <==> 2 * t.granters.len() > voters
            &&& 0 <= i <= u32::MAX ==> (t.granters.contains(i as u32) <==> i < answers.len()
                && (answers[i] matches Some(r) && is_grant_of(r, epoch)))
            &&& 0 <= i < answers.len() ==> (answers[i] matches Some(r) ==> (is_grant_of(r, epoch)
                ==> r->high_water.0 <= t.sync_to))
            &&& 0 <= i < answers.len() ==> (answers[i] matches Some(VoteReply::Reject { promised })
                ==> promised <= t.highest_promised && (promised >= epoch ==> t.lost))
        }),
    decreases answers.len(),
{
    if answers.len() > 0 {
        law_answers_count_by_place(epoch, voters, answers.drop_last(), i);
    }
}

} // verus!
