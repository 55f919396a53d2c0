//! Deferred acknowledgement: outputs that wait until a majority of the voters
//! has journaled the frame they come from.

use vstd::prelude::*;

use crate::codec::Encode;
use crate::commit::{acked, is_watermark, CommitTracker};
use crate::seq::SeqNo;
use crate::service::{all_encodable, encoded};

verus! {

/// Outputs, as their bytes, with the seq of the frame they come from.
pub type Held = Seq<(u64, Seq<Seq<u8>>)>;

/// What a leader that waits for a quorum knows.
#[verifier::ext_equal]
pub struct QuorumModel {
    pub high_waters: Map<u32, u64>,
    pub voters: nat,
    /// The leader's own replica number.
    pub id: u32,
    /// What was there when the leader started is committed.
    pub floor: u64,
    pub pending: Held,
}

impl QuorumModel {
    /// Whether everything up to `w`, and nothing behind it, is committed.
    pub open spec fn commits(self, w: u64) -> bool {
        exists|c: u64|
            is_watermark(self.high_waters, self.voters, c) && w == if c > self.floor {
                c
            } else {
                self.floor
            }
    }

    /// With what `replica` acknowledged taken in.
    pub open spec fn acked(self, replica: u32, seq: u64) -> QuorumModel {
        QuorumModel { high_waters: acked(self.high_waters, replica, seq), ..self }
    }

    /// With more outputs held back.
    pub open spec fn holding(self, more: Held) -> QuorumModel {
        QuorumModel { pending: self.pending + more, ..self }
    }

    /// With the first `k` entries released.
    pub open spec fn released(self, k: nat) -> QuorumModel {
        QuorumModel { pending: self.pending.skip(k as int), ..self }
    }
}

/// How many entries in front are committed.
pub open spec fn ripe(pending: Held, w: u64) -> nat
    decreases pending.len(),
{
    if pending.len() == 0 || pending[0].0 > w {
        0
    } else {
        1 + ripe(pending.skip(1), w)
    }
}

proof fn lemma_ripe(pending: Held, w: u64, k: nat)
    requires
        k <= pending.len(),
        forall|i: int| 0 <= i < k ==> (#[trigger] pending[i]).0 <= w,
        k < pending.len() ==> pending[k as int].0 > w,
    ensures
        ripe(pending, w) == k,
    decreases k,
{
    if k > 0 {
        assert(pending[0].0 <= w);
        assert forall|i: int| 0 <= i < k - 1 implies (#[trigger] pending.skip(1)[i]).0 <= w by {
            assert(pending.skip(1)[i] == pending[i + 1]);
        }
        lemma_ripe(pending.skip(1), w, (k - 1) as nat);
    }
}

/// Entries as the model has them.
pub open spec fn held_outputs<O: Encode>(entries: Seq<(SeqNo, Vec<O>)>) -> Held {
    entries.map_values(|e: (SeqNo, Vec<O>)| (e.0.0, encoded(e.1@)))
}

/// Every output of the entries can be encoded.
pub open spec fn entries_encodable<O: Encode>(entries: Seq<(SeqNo, Vec<O>)>) -> bool {
    forall|i: int| 0 <= i < entries.len() ==> all_encodable((#[trigger] entries[i]).1@)
}

/// All outputs of entries in order.
pub open spec fn flattened(entries: Held) -> Seq<Seq<u8>>
    decreases entries.len(),
{
    if entries.len() == 0 {
        Seq::empty()
    } else {
        flattened(entries.drop_last()) + entries.last().1
    }
}

/// A leader's view of its quorum, and the outputs it holds back.
pub struct Quorum<O: Encode> {
    tracker: CommitTracker,
    id: u32,
    floor: SeqNo,
    pending: Vec<(SeqNo, Vec<O>)>,
}

impl<O: Encode> View for Quorum<O> {
    type V = QuorumModel;

    closed spec fn view(&self) -> QuorumModel {
        QuorumModel {
            high_waters: self.tracker.high_waters(),
            voters: self.tracker.voter_count(),
            id: self.id,
            floor: self.floor.0,
            pending: held_outputs(self.pending@),
        }
    }
}

impl<O: Encode> Quorum<O> {
    /// Every output that is held back can be encoded.
    #[verifier::type_invariant]
    spec fn inv(&self) -> bool {
        entries_encodable(self.pending@)
    }

    /// A leader numbered `id` among `voters`, which starts with everything up
    /// to `floor` committed.
    pub fn new(voters: usize, id: u32, floor: SeqNo) -> (r: Self)
        ensures
            r@ == (QuorumModel {
                high_waters: Map::empty(),
                voters: voters as nat,
                id,
                floor: floor.0,
                pending: Seq::empty(),
            }),
    {
        let pending: Vec<(SeqNo, Vec<O>)> = Vec::new();
        assert(held_outputs(pending@) =~= Seq::empty());
        Quorum { tracker: CommitTracker::new(voters), id, floor, pending }
    }

    /// The leader has journaled everything up to `seq`.
    pub fn ack_self(&mut self, seq: SeqNo)
        ensures
            final(self)@ == old(self)@.acked(old(self)@.id, seq.0),
    {
        self.ack(self.id, seq);
    }

    /// A replica has journaled everything up to `seq`.
    pub fn ack(&mut self, replica: u32, seq: SeqNo)
        ensures
            final(self)@ == old(self)@.acked(replica, seq.0),
    {
        proof {
            use_type_invariant(&*self);
        }
        let mut tracker = CommitTracker::new(0);
        std::mem::swap(&mut tracker, &mut self.tracker);
        tracker.record_ack(replica, seq);
        self.tracker = tracker;
    }

    /// Holds outputs back.
    pub fn hold(&mut self, seq: SeqNo, outputs: Vec<O>)
        requires
            all_encodable(outputs@),
        ensures
            final(self)@ == old(self)@.holding(seq![(seq.0, encoded(outputs@))]),
    {
        proof {
            use_type_invariant(&*self);
        }
        let ghost before = self.pending@;
        let ghost entry = (seq.0, encoded(outputs@));
        let mut pending: Vec<(SeqNo, Vec<O>)> = Vec::new();
        std::mem::swap(&mut pending, &mut self.pending);
        pending.push((seq, outputs));
        assert(held_outputs(pending@) =~= held_outputs(before) + seq![entry]);
        self.pending = pending;
    }

    /// Everything up to here is committed.
    pub fn watermark(&self) -> (r: SeqNo)
        ensures
            self@.commits(r.0),
    {
        let c = self.tracker.committed();
        assert(is_watermark(self@.high_waters, self@.voters, c.0));
        if c.0 > self.floor.0 {
            c
        } else {
            self.floor
        }
    }

    /// Takes out what is committed, in order.
    pub fn release(&mut self) -> (r: Vec<(SeqNo, Vec<O>)>)
        ensures
            exists|w: u64|
                {
                    let k = ripe(old(self)@.pending, w);
                    &&& #[trigger] old(self)@.commits(w)
                    &&& held_outputs(r@) == old(self)@.pending.take(k as int)
                    &&& final(self)@ == old(self)@.released(k)
                },
            entries_encodable(r@),
    {
        proof {
            use_type_invariant(&*self);
        }
        let w: SeqNo = self.watermark();
        let n: usize = self.pending.len();
        let ghost model = self@;
        let mut k: usize = 0;
        assert(model.pending.len() == n);
        while k < n && self.pending[k].0.0 <= w.0
            invariant
                k <= n == self.pending@.len() == model.pending.len(),
                model == self@,
                model.pending == held_outputs(self.pending@),
                entries_encodable(self.pending@),
                forall|i: int| 0 <= i < k ==> (#[trigger] model.pending[i]).0 <= w.0,
            decreases n - k,
        {
            assert(model.pending[k as int].0 == self.pending@[k as int].0.0);
            k = k + 1;
        }
        proof {
            if k < n {
                assert(model.pending[k as int].0 == self.pending@[k as int].0.0);
            }
            lemma_ripe(model.pending, w.0, k as nat);
        }
        let ghost all = self.pending@;
        let mut taken: Vec<(SeqNo, Vec<O>)> = Vec::new();
        std::mem::swap(&mut taken, &mut self.pending);
        let rest = taken.split_off(k);
        assert(entries_encodable(all));
        assert(taken@ =~= all.take(k as int) && rest@ =~= all.skip(k as int));
        self.pending = rest;
        proof {
            assert(held_outputs(taken@) =~= model.pending.take(k as int));
            assert(self@.pending =~= model.released(k as nat).pending);
            assert(model.commits(w.0));
        }
        taken
    }

    /// How many entries wait.
    pub fn pending_count(&self) -> (r: usize)
        ensures
            r == self@.pending.len(),
    {
        self.pending.len()
    }
}

/// All outputs of the entries, in order.
pub fn flatten<O: Encode>(entries: Vec<(SeqNo, Vec<O>)>) -> (r: Vec<O>)
    ensures
        encoded(r@) == flattened(held_outputs(entries@)),
        entries_encodable(entries@) ==> all_encodable(r@),
{
    let ghost given = entries@;
    let mut entries = entries;
    let ghost all = held_outputs(entries@);
    let n: usize = entries.len();
    let mut out: Vec<O> = Vec::new();
    assert(encoded(out@) =~= Seq::<Seq<u8>>::empty());
    assert(all.take(0) =~= Seq::empty());
    let mut i: usize = 0;
    while i < n
        invariant
            i <= n == entries@.len() == all.len(),
            encoded(out@) == flattened(all.take(i as int)),
            forall|j: int| i <= j < n ==> #[trigger] held_outputs(entries@)[j] == all[j],
            n == given.len(),
            forall|j: int| i <= j < n ==> #[trigger] entries@[j] == given[j],
            entries_encodable(given) ==> all_encodable(out@),
        decreases n - i,
    {
        let ghost was = entries@;
        let ghost before = out@;
        let mut more: Vec<O> = Vec::new();
        std::mem::swap(&mut more, &mut entries[i].1);
        let ghost added = more@;
        out.append(&mut more);
        proof {
            assert(held_outputs(was)[i as int] == all[i as int]);
            assert(was[i as int] == given[i as int]);
            assert(encoded(out@) =~= encoded(before) + encoded(added));
            assert(all.take(i + 1).drop_last() =~= all.take(i as int));
            assert(all.take(i + 1).last() == all[i as int]);
            assert forall|j: int| i + 1 <= j < n implies #[trigger] held_outputs(entries@)[j]
                == all[j] by {
                assert(entries@[j] == was[j]);
                assert(held_outputs(was)[j] == all[j]);
            }
        }
        i = i + 1;
    }
    assert(all.take(n as int) =~= all);
    out
}

/// What an acknowledgement releases is the longest run of entries in front that
/// are committed: none behind the watermark leaves, and none at or below it is
/// held back in front of it.
pub proof fn law_committed_entries_are_released(m: QuorumModel, w: u64, i: int)
    ensures
        ripe(m.pending, w) <= m.pending.len(),
        0 <= i < ripe(m.pending, w) ==> m.pending[i].0 <= w,
        ripe(m.pending, w) < m.pending.len() ==> m.pending[ripe(m.pending, w) as int].0 > w,
        m.pending.take(ripe(m.pending, w) as int) + m.released(ripe(m.pending, w)).pending
            == m.pending,
        m.released(ripe(m.pending, w)).high_waters == m.high_waters,
        m.released(ripe(m.pending, w)).floor == m.floor,
    decreases m.pending.len(),
{
    let k = ripe(m.pending, w);
    if m.pending.len() > 0 && m.pending[0].0 <= w {
        let rest = QuorumModel { pending: m.pending.skip(1), ..m };
        law_committed_entries_are_released(rest, w, i - 1);
    }
    assert(m.pending.take(k as int) + m.pending.skip(k as int) =~= m.pending);
}

/// Outputs that are held back wait behind those that were held back before, and
/// an acknowledgement releases none of itself.
pub proof fn law_outputs_wait_in_order(m: QuorumModel, more: Held, replica: u32, seq: u64)
    ensures
        m.holding(more).pending.take(m.pending.len() as int) == m.pending,
        m.holding(more).pending.skip(m.pending.len() as int) == more,
        m.holding(more).high_waters == m.high_waters,
        m.acked(replica, seq).pending == m.pending,
        m.acked(replica, seq).voters == m.voters,
        m.acked(replica, seq).high_waters.contains_key(replica),
        m.acked(replica, seq).high_waters[replica] >= seq,
{
    assert(m.holding(more).pending.take(m.pending.len() as int) =~= m.pending);
    assert(m.holding(more).pending.skip(m.pending.len() as int) =~= more);
}

/// What is committed never lies in front of where the node was opened, and
/// beyond that a majority of the voters holds it.
pub proof fn law_commit_needs_a_majority(m: QuorumModel, w: u64)
    requires
        m.commits(w),
    ensures
        w >= m.floor,
        w > m.floor && w > 0 ==> 2 * Set::new(
            |r: u32| m.high_waters.contains_key(r) && w <= m.high_waters[r],
        ).len() > m.voters,
{
    let c = choose|c: u64|
        is_watermark(m.high_waters, m.voters, c) && w == if c > m.floor {
            c
        } else {
            m.floor
        };
    crate::commit::law_watermark_is_held(m.high_waters, m.voters, c);
}

/// Outputs come out entry by entry, each entry's in their order.
pub proof fn law_outputs_come_out_in_order(a: Held, b: Held, e: (u64, Seq<Seq<u8>>))
    ensures
        flattened(a + b) == flattened(a) + flattened(b),
        flattened(seq![e]) == e.1,
        flattened(Seq::empty()) == Seq::<Seq<u8>>::empty(),
    decreases b.len(),
{
    assert(seq![e].drop_last() =~= Seq::empty());
    assert(flattened(seq![e].drop_last()) == Seq::<Seq<u8>>::empty());
    assert(flattened(seq![e]) =~= e.1);
    if b.len() == 0 {
        assert(a + b =~= a);
        assert(flattened(a) + flattened(b) =~= flattened(a));
    } else {
        assert((a + b).drop_last() =~= a + b.drop_last());
        law_outputs_come_out_in_order(a, b.drop_last(), e);
        assert(flattened(a + b) =~= flattened(a) + flattened(b));
    }
}

} // verus!
