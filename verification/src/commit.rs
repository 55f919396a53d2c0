//! Quorum commit tracking: an input is committed once a majority of replicas
//! have durably journaled it; outputs are withheld until then.
//!
//! Because replica journals are gapless prefixes of the stream, one
//! high-water seq per replica fully describes what it holds, and the commit
//! watermark is the majority-th highest high-water.

use vstd::prelude::*;

use crate::seq::SeqNo;

verus! {

/// Which durability tier a cluster runs.
#[derive(Debug, Clone, Copy, PartialEq, Eq, Structural)]
pub enum Tier {
    /// Async hot standby: outputs released immediately; failover may lose
    /// the unreplicated tail.
    AsyncStandby,
    /// Quorum-committed: outputs released only once a majority has journaled
    /// the input; failover loses nothing committed.
    QuorumCommit,
}

/// Majority for a cluster of `n` voters.
pub fn majority(n: usize) -> (m: usize)
    ensures
        m == majority_of(n as nat),
{
    n / 2 + 1
}

/// Majority for a cluster of `n` voters.
pub open spec fn majority_of(n: nat) -> nat {
    n / 2 + 1
}

/// Two majorities of the same voters have a voter in common.
pub proof fn law_majorities_intersect(voters: Set<u32>, a: Set<u32>, b: Set<u32>)
    requires
        voters.finite(),
        a.subset_of(voters),
        b.subset_of(voters),
        a.len() >= majority_of(voters.len()),
        b.len() >= majority_of(voters.len()),
    ensures
        exists|v: u32| a.contains(v) && b.contains(v),
{
    if a.disjoint(b) {
        vstd::set_lib::lemma_len_subset(a, voters);
        vstd::set_lib::lemma_len_subset(b, voters);
        vstd::set_lib::lemma_set_disjoint_lens(a, b);
        assert((a + b).subset_of(voters));
        vstd::set_lib::lemma_len_subset(a + b, voters);
    } else {
        let v = choose|v: u32| a.contains(v) && b.contains(v);
        assert(a.contains(v) && b.contains(v));
    }
}

/// The replicas that hold everything up to `seq`.
pub open spec fn holders(high_waters: Map<u32, u64>, seq: u64) -> Set<u32> {
    Set::new(|r: u32| high_waters.contains_key(r) && high_waters[r] >= seq)
}

/// Whether `w` is the commit watermark: the highest seq that a majority of
/// the voters holds; the genesis sentinel where fewer than a majority have
/// reported at all.
pub open spec fn is_watermark(high_waters: Map<u32, u64>, voters: nat, w: u64) -> bool {
    let needed = majority_of(voters);
    if high_waters.dom().len() < needed {
        w == 0
    } else {
        &&& holders(high_waters, w).len() >= needed
        &&& forall|s: u64| s > w ==> (#[trigger] holders(high_waters, s)).len() < needed
    }
}

/// There is one commit watermark.
pub proof fn law_watermark_is_unique(high_waters: Map<u32, u64>, voters: nat, a: u64, b: u64)
    requires
        is_watermark(high_waters, voters, a),
        is_watermark(high_waters, voters, b),
    ensures
        a == b,
{
    if high_waters.dom().len() >= majority_of(voters) {
        if a < b {
            assert(holders(high_waters, b).len() < majority_of(voters));
        } else if b < a {
            assert(holders(high_waters, a).len() < majority_of(voters));
        }
    }
}

/// The high-waters after one acknowledgement: they only go up.
pub open spec fn acked(high_waters: Map<u32, u64>, replica: u32, seq: u64) -> Map<u32, u64> {
    if high_waters.contains_key(replica) && high_waters[replica] >= seq {
        high_waters
    } else {
        high_waters.insert(replica, seq)
    }
}

/// An acknowledgement never lowers the commit watermark.
pub proof fn law_watermark_is_monotonic(
    high_waters: Map<u32, u64>,
    voters: nat,
    replica: u32,
    seq: u64,
    before: u64,
    after: u64,
)
    requires
        high_waters.dom().finite(),
        is_watermark(high_waters, voters, before),
        is_watermark(acked(high_waters, replica, seq), voters, after),
    ensures
        before <= after,
{
    let now = acked(high_waters, replica, seq);
    if high_waters.dom().len() >= majority_of(voters) && before > after {
        assert(holders(high_waters, before).subset_of(now.dom()));
        let h = holders(high_waters, before);
        let k = holders(now, before);
        assert(h.subset_of(k));
        assert(k.subset_of(now.dom()));
        assert(now.dom().subset_of(high_waters.dom().insert(replica)));
        vstd::set_lib::lemma_len_subset(now.dom(), high_waters.dom().insert(replica));
        vstd::set_lib::lemma_len_subset(k, now.dom());
        vstd::set_lib::lemma_len_subset(h, k);
        assert(high_waters.dom().subset_of(now.dom()));
        vstd::set_lib::lemma_len_subset(high_waters.dom(), now.dom());
        assert(holders(now, before).len() < majority_of(voters));
    }
}

/// Nothing counts as committed that fewer than a majority hold.
pub proof fn law_minority_never_commits(high_waters: Map<u32, u64>, voters: nat, w: u64, seq: u64)
    requires
        is_watermark(high_waters, voters, w),
        high_waters.dom().finite(),
        holders(high_waters, seq).len() < majority_of(voters),
        seq > 0,
    ensures
        w < seq,
{
    if w >= seq && high_waters.dom().len() >= majority_of(voters) {
        assert(holders(high_waters, w).subset_of(holders(high_waters, seq)));
        assert(holders(high_waters, seq).subset_of(high_waters.dom()));
        vstd::set_lib::lemma_len_subset(holders(high_waters, seq), high_waters.dom());
        vstd::set_lib::lemma_len_subset(holders(high_waters, w), holders(high_waters, seq));
    }
}

/// How many of `waters` are at least `s`.
spec fn count_ge(waters: Seq<u64>, s: u64) -> nat
    decreases waters.len(),
{
    if waters.len() == 0 {
        0
    } else {
        count_ge(waters.drop_last(), s) + if waters.last() >= s {
            1nat
        } else {
            0nat
        }
    }
}

proof fn lemma_count_insert(waters: Seq<u64>, at: int, x: u64, s: u64)
    requires
        0 <= at <= waters.len(),
    ensures
        count_ge(waters.insert(at, x), s) == count_ge(waters, s) + if x >= s {
            1nat
        } else {
            0nat
        },
    decreases waters.len(),
{
    let w = waters.insert(at, x);
    if at == waters.len() {
        assert(w.drop_last() =~= waters);
    } else {
        assert(w.drop_last() =~= waters.drop_last().insert(at, x));
        assert(w.last() == waters.last());
        lemma_count_insert(waters.drop_last(), at, x, s);
    }
}

/// In a descending list, as many are at least `s` as come before the first
/// that is less.
proof fn lemma_count_sorted(waters: Seq<u64>, k: int, s: u64)
    requires
        forall|i: int, j: int| 0 <= i < j < waters.len() ==> waters[i] >= waters[j],
        0 <= k <= waters.len(),
    ensures
        k > 0 && waters[k - 1] >= s ==> count_ge(waters, s) >= k,
        k < waters.len() && waters[k] < s ==> count_ge(waters, s) <= k,
    decreases waters.len(),
{
    if waters.len() > 0 {
        let front = waters.drop_last();
        if k < waters.len() {
            lemma_count_sorted(front, k, s);
            if k == front.len() && waters[k] < s {
                lemma_count_bound(front, s);
            }
        } else if waters[k - 1] >= s {
            if k > 1 {
                assert(waters[k - 2] >= waters[k - 1]);
            }
            lemma_count_sorted(front, k - 1, s);
        }
    }
}

proof fn lemma_count_bound(waters: Seq<u64>, s: u64)
    ensures
        count_ge(waters, s) <= waters.len(),
    decreases waters.len(),
{
    if waters.len() > 0 {
        lemma_count_bound(waters.drop_last(), s);
    }
}

spec fn distinct(entries: Seq<(u32, u64)>) -> bool {
    forall|i: int, j: int| 0 <= i < j < entries.len() ==> entries[i].0 != entries[j].0
}

spec fn as_map(entries: Seq<(u32, u64)>) -> Map<u32, u64>
    decreases entries.len(),
{
    if entries.len() == 0 {
        Map::empty()
    } else {
        as_map(entries.drop_last()).insert(entries.last().0, entries.last().1)
    }
}

proof fn lemma_as_map(entries: Seq<(u32, u64)>)
    requires
        distinct(entries),
    ensures
        as_map(entries).dom().finite(),
        as_map(entries).dom().len() == entries.len(),
        forall|r: u32| #[trigger]
            as_map(entries).contains_key(r) ==> exists|i: int|
                0 <= i < entries.len() && entries[i].0 == r,
        forall|i: int|
            0 <= i < entries.len() ==> as_map(entries).contains_key((#[trigger] entries[i]).0)
                && as_map(entries)[entries[i].0] == entries[i].1,
    decreases entries.len(),
{
    if entries.len() > 0 {
        let front = entries.drop_last();
        let last = entries.last();
        assert forall|i: int, j: int| 0 <= i < j < front.len() implies front[i].0
            != front[j].0 by {
            assert(entries[i].0 != entries[j].0);
        }
        lemma_as_map(front);
        let m = as_map(entries);
        if as_map(front).contains_key(last.0) {
            let i = choose|i: int| 0 <= i < front.len() && front[i].0 == last.0;
            assert(entries[i].0 != entries[entries.len() - 1].0);
        }
        assert(m.dom() =~= as_map(front).dom().insert(last.0));
        assert forall|r: u32| #[trigger] m.contains_key(r) implies exists|i: int|
            0 <= i < entries.len() && entries[i].0 == r by {
            if r == last.0 {
                assert(entries[entries.len() - 1].0 == r);
            } else {
                let i = choose|i: int| 0 <= i < front.len() && front[i].0 == r;
                assert(entries[i].0 == r);
            }
        }
        assert forall|i: int| 0 <= i < entries.len() implies m.contains_key(
            (#[trigger] entries[i]).0,
        ) && m[entries[i].0] == entries[i].1 by {
            if i < front.len() {
                assert(front[i] == entries[i]);
                assert(entries[i].0 != entries[entries.len() - 1].0);
            }
        }
    }
}

spec fn waters_of(entries: Seq<(u32, u64)>) -> Seq<u64> {
    entries.map_values(|e: (u32, u64)| e.1)
}

proof fn lemma_holders_count(entries: Seq<(u32, u64)>, s: u64)
    requires
        distinct(entries),
    ensures
        holders(as_map(entries), s).finite(),
        holders(as_map(entries), s).len() == count_ge(waters_of(entries), s),
    decreases entries.len(),
{
    if entries.len() == 0 {
        assert(holders(as_map(entries), s) =~= Set::empty());
    } else {
        let front = entries.drop_last();
        let last = entries.last();
        assert forall|i: int, j: int| 0 <= i < j < front.len() implies front[i].0
            != front[j].0 by {
            assert(entries[i].0 != entries[j].0);
        }
        lemma_holders_count(front, s);
        lemma_as_map(front);
        if as_map(front).contains_key(last.0) {
            let i = choose|i: int| 0 <= i < front.len() && front[i].0 == last.0;
            assert(entries[i].0 != entries[entries.len() - 1].0);
        }
        assert(waters_of(entries).drop_last() =~= waters_of(front));
        let h = holders(as_map(front), s);
        if last.1 >= s {
            assert(holders(as_map(entries), s) =~= h.insert(last.0));
        } else {
            assert(holders(as_map(entries), s) =~= h);
        }
    }
}

/// Per-replica high-waters and the watermark they give.
#[derive(Debug)]
pub struct CommitTracker {
    /// Last contiguously-journaled seq per replica (the leader counts as a
    /// replica of itself).
    entries: Vec<(u32, u64)>,
    voters: usize,
}

impl CommitTracker {
    #[verifier::type_invariant]
    spec fn wf(&self) -> bool {
        distinct(self.entries@)
    }

    /// The high-water seq of each replica that has reported.
    pub closed spec fn high_waters(&self) -> Map<u32, u64> {
        as_map(self.entries@)
    }

    pub closed spec fn voter_count(&self) -> nat {
        self.voters as nat
    }

    pub fn new(voters: usize) -> (r: Self)
        ensures
            r.high_waters() == Map::<u32, u64>::empty(),
            r.voter_count() == voters,
    {
        CommitTracker { entries: Vec::new(), voters }
    }

    /// The replicas that have reported are finitely many.
    pub fn reporting(&self) -> (n: usize)
        ensures
            n == self.high_waters().dom().len(),
            self.high_waters().dom().finite(),
    {
        proof {
            use_type_invariant(self);
            lemma_as_map(self.entries@);
        }
        self.entries.len()
    }

    /// Records that `replica` has durably journaled everything up to `seq`.
    /// Returns the (possibly advanced) commit watermark.
    pub fn record_ack(&mut self, replica: u32, seq: SeqNo) -> (r: SeqNo)
        ensures
            final(self).voter_count() == old(self).voter_count(),
            final(self).high_waters() == acked(old(self).high_waters(), replica, seq.0),
            is_watermark(final(self).high_waters(), final(self).voter_count(), r.0),
    {
        proof {
            use_type_invariant(&*self);
        }
        let ghost start = self.entries@;
        let mut entries: Vec<(u32, u64)> = Vec::new();
        std::mem::swap(&mut entries, &mut self.entries);
        proof {
            lemma_as_map(start);
        }
        let mut i: usize = 0;
        while i < entries.len() && entries[i].0 != replica
            invariant
                i <= entries@.len(),
                entries@ == start,
                forall|k: int| 0 <= k < i ==> (#[trigger] start[k]).0 != replica,
            decreases entries@.len() - i,
        {
            i = i + 1;
        }
        if i < entries.len() {
            if entries[i].1 < seq.0 {
                entries.set(i, (replica, seq.0));
                proof {
                    let end = entries@;
                    assert forall|a: int, b: int| 0 <= a < b < end.len() implies end[a].0
                        != end[b].0 by {
                        assert(start[a].0 != start[b].0);
                    }
                    lemma_as_map(end);
                    let m = as_map(start).insert(replica, seq.0);
                    assert forall|r: u32| as_map(end).contains_key(r) <==> m.contains_key(r) by {
                        if as_map(end).contains_key(r) {
                            let k = choose|k: int| 0 <= k < end.len() && end[k].0 == r;
                            assert(start[k].0 == r);
                        }
                        if m.contains_key(r) && r != replica {
                            let k = choose|k: int| 0 <= k < start.len() && start[k].0 == r;
                            assert(end[k].0 == r);
                        }
                        assert(end[i as int].0 == replica);
                    }
                    assert forall|r: u32| as_map(end).contains_key(r) implies as_map(end)[r]
                        == m[r] by {
                        let k = choose|k: int| 0 <= k < end.len() && end[k].0 == r;
                        if k != i {
                            assert(start[k] == end[k]);
                            assert(start[k].0 != replica) by {
                                if k < i {
                                    assert(start[k].0 != start[i as int].0);
                                } else {
                                    assert(start[i as int].0 != start[k].0);
                                }
                            }
                        }
                    }
                    assert(as_map(end) =~= m);
                }
            } else {
                assert(as_map(start)[start[i as int].0] == start[i as int].1);
            }
        } else {
            entries.push((replica, seq.0));
            proof {
                let end = entries@;
                assert(end.drop_last() =~= start);
                if as_map(start).contains_key(replica) {
                    let k = choose|k: int| 0 <= k < start.len() && start[k].0 == replica;
                    assert(start[k].0 != replica);
                }
            }
        }
        self.entries = entries;
        self.committed()
    }

    /// The commit watermark: the highest seq journaled by at least a
    /// majority of voters.
    pub fn committed(&self) -> (r: SeqNo)
        ensures
            is_watermark(self.high_waters(), self.voter_count(), r.0),
    {
        proof {
            use_type_invariant(self);
            lemma_as_map(self.entries@);
        }
        let ghost entries = self.entries@;
        let needed: usize = majority(self.voters);
        if self.entries.len() < needed {
            return SeqNo(0);
        }
        let mut waters: Vec<u64> = Vec::new();
        let mut i: usize = 0;
        assert(waters_of(entries).take(0) =~= Seq::<u64>::empty());
        while i < self.entries.len()
            invariant
                i <= entries.len(),
                entries == self.entries@,
                waters@.len() == i,
                forall|a: int, b: int| 0 <= a < b < waters@.len() ==> waters@[a] >= waters@[b],
                forall|s: u64| #[trigger]
                    count_ge(waters@, s) == count_ge(waters_of(entries).take(i as int), s),
            decreases entries.len() - i,
        {
            let x: u64 = self.entries[i].1;
            let ghost before = waters@;
            let mut at: usize = 0;
            while at < waters.len() && waters[at] >= x
                invariant
                    at <= waters@.len(),
                    waters@ == before,
                    forall|k: int| 0 <= k < at ==> #[trigger] before[k] >= x,
                decreases waters@.len() - at,
            {
                at = at + 1;
            }
            waters.insert(at, x);
            proof {
                let end = waters@;
                assert forall|a: int, b: int| 0 <= a < b < end.len() implies end[a] >= end[b] by {
                    let p = if a < at {
                        a
                    } else {
                        a - 1
                    };
                    let q = if b < at {
                        b
                    } else {
                        b - 1
                    };
                    if a != at {
                        assert(end[a] == before[p]);
                    }
                    if b != at {
                        assert(end[b] == before[q]);
                    }
                    if a == at && at < before.len() && q > at {
                        assert(before[at as int] >= before[q]);
                    }
                }
                let w = waters_of(entries);
                assert(w.take(i + 1).drop_last() =~= w.take(i as int));
                assert(w.take(i + 1).last() == x);
                assert forall|s: u64| #[trigger] count_ge(end, s) == count_ge(
                    w.take(i + 1),
                    s,
                ) by {
                    lemma_count_insert(before, at as int, x, s);
                    assert(count_ge(before, s) == count_ge(w.take(i as int), s));
                }
            }
            i = i + 1;
        }
        let r: u64 = waters[needed - 1];
        proof {
            let w = waters_of(entries);
            assert(w.take(w.len() as int) =~= w);
            lemma_holders_count(entries, r);
            lemma_count_sorted(waters@, needed as int, r);
            assert(count_ge(waters@, r) == count_ge(w.take(i as int), r));
            assert forall|s: u64| s > r implies (#[trigger] holders(
                self.high_waters(),
                s,
            )).len() < majority_of(self.voters as nat) by {
                lemma_holders_count(entries, s);
                lemma_count_sorted(waters@, needed - 1, s);
                assert(count_ge(waters@, s) == count_ge(w.take(i as int), s));
            }
        }
        SeqNo(r)
    }
}

/// More than half of the voters are a majority, and no fewer are.
pub proof fn law_majority_is_more_than_half(n: nat)
    ensures
        2 * majority_of(n) > n,
        2 * (majority_of(n) - 1) <= n,
{
}

/// A replica's high-water is the highest that it acknowledged; those of others
/// stay.
pub proof fn law_acknowledgement_raises_one_replica(
    high_waters: Map<u32, u64>,
    replica: u32,
    seq: u64,
    other: u32,
)
    ensures
        ({
            let after = acked(high_waters, replica, seq);
            &&& after.contains_key(replica)
            &&& after[replica] >= seq
            &&& high_waters.contains_key(replica) ==> after[replica] >= high_waters[replica]
            &&& after[replica] == seq || (high_waters.contains_key(replica) && after[replica]
                == high_waters[replica])
            &&& other != replica ==> (after.contains_key(other) <==> high_waters.contains_key(
                other,
            )) && (after.contains_key(other) ==> after[other] == high_waters[other])
        }),
{
}

/// The commit watermark is held by more than half of the voters, and no higher
/// seq is.
pub proof fn law_watermark_is_held(high_waters: Map<u32, u64>, voters: nat, w: u64)
    requires
        is_watermark(high_waters, voters, w),
    ensures
        w > 0 ==> 2 * Set::new(
            |r: u32| high_waters.contains_key(r) && w <= high_waters[r],
        ).len() > voters,
        2 * high_waters.dom().len() > voters ==> forall|s: u64|
            s > w ==> 2 * (#[trigger] holders(high_waters, s)).len() <= voters,
{
    let held = Set::new(|r: u32| high_waters.contains_key(r) && w <= high_waters[r]);
    assert(held =~= holders(high_waters, w));
}

} // verus!
