//! Serving historical frames by seq range: a bounded in-memory window of
//! recent frames, the journal for what has aged out of it, and the two chained.

use vstd::prelude::*;

use std::collections::VecDeque;

use crate::frame::{Frame, Record};
use crate::journal::{records, recover, segments, seq_before, Journal, JournalConfig};
use crate::seq::SeqNo;
use crate::storage::{Disk, DiskModel, Storage};

verus! {

/// Frames that are kept in memory, and how many of them can be.
pub struct Kept {
    pub frames: Seq<Record>,
    pub limit: nat,
}

/// Anything that can serve historical frames by seq range for gap-fill.
pub trait FrameStore {
    /// The frames that the store answers with: up to `count`, from `from` on,
    /// in seq order. May be fewer, or none, where the store lacks the range.
    spec fn reply(&self, from: u64, count: nat) -> Seq<Record>;

    /// The highest seq the store can serve (0 if it is empty).
    spec fn highest(&self) -> u64;

    /// The lowest seq the store can serve.
    spec fn lowest(&self) -> u64;

    /// Whether the store is able to answer at all.
    spec fn answers(&self) -> bool;

    /// Whether the store is able to answer for this range.
    spec fn serves(&self, from: u64, count: nat) -> bool;

    /// What the store keeps in memory. Reading leaves it alone.
    spec fn recent(&self) -> Kept;

    fn range(&mut self, from: SeqNo, count: usize) -> (r: Vec<Frame>)
        ensures
            final(self).recent() == old(self).recent(),
            old(self).serves(from.0, count as nat) ==> records(r@) == old(self).reply(
                from.0,
                count as nat,
            ),
            old(self).answers() ==> final(self).answers(),
            forall|from: u64, count: nat|
                old(self).serves(from, count) ==> #[trigger] final(self).serves(from, count),
            forall|from: u64, count: nat|
                old(self).serves(from, count) ==> #[trigger] final(self).reply(from, count) == old(
                    self,
                ).reply(from, count),
            forall|i: int| 0 <= i < r@.len() ==> (#[trigger] r@[i])@.valid(),
    ;

    fn high_water(&mut self) -> (r: SeqNo)
        ensures
            final(self).recent() == old(self).recent(),
            old(self).answers() ==> r.0 == old(self).highest(),
            old(self).answers() ==> final(self).answers(),
            forall|from: u64, count: nat|
                old(self).serves(from, count) ==> #[trigger] final(self).serves(from, count),
            forall|from: u64, count: nat|
                old(self).serves(from, count) ==> #[trigger] final(self).reply(from, count) == old(
                    self,
                ).reply(from, count),
    ;

    fn low_water(&mut self) -> (r: SeqNo)
        ensures
            final(self).recent() == old(self).recent(),
            old(self).answers() ==> r.0 == old(self).lowest(),
            old(self).answers() ==> final(self).answers(),
            forall|from: u64, count: nat|
                old(self).serves(from, count) ==> #[trigger] final(self).serves(from, count),
            forall|from: u64, count: nat|
                old(self).serves(from, count) ==> #[trigger] final(self).reply(from, count) == old(
                    self,
                ).reply(from, count),
    ;
}

/// A store that could answer still does, and in the same way.
pub open spec fn undisturbed<F: FrameStore>(before: F, after: F) -> bool {
    &&& before.answers() ==> after.answers()
    &&& forall|from: u64, count: nat|
        before.serves(from, count) ==> #[trigger] after.serves(from, count)
    &&& forall|from: u64, count: nat|
        before.serves(from, count) ==> #[trigger] after.reply(from, count) == before.reply(
            from,
            count,
        )
}

/// Up to `count` of the frames from the `k`-th on.
pub open spec fn window(frames: Seq<Record>, k: int, count: nat) -> Seq<Record> {
    if k >= frames.len() {
        Seq::empty()
    } else if frames.len() - k <= count {
        frames.skip(k)
    } else {
        frames.subrange(k, k + count)
    }
}

/// Up to `count` of the frames from seq `from` on, of frames without a gap; none
/// where they start behind it.
pub open spec fn held_from(held: Seq<Record>, from: u64, count: nat) -> Seq<Record> {
    if held.len() == 0 || from < held[0].seq {
        Seq::empty()
    } else {
        window(held, from - held[0].seq, count)
    }
}

/// The first of the frames has seq `from`.
pub open spec fn starts_at(frames: Seq<Record>, from: u64) -> bool {
    frames.len() > 0 && frames[0].seq == from
}

/// Up to `count` of the frames from seq `from` on: the recent ones where the
/// first is among them, else those of the journal.
pub open spec fn chained(
    recent: Seq<Record>,
    journaled: Seq<Record>,
    from: u64,
    count: nat,
) -> Seq<Record> {
    let first = held_from(recent, from, count);
    if starts_at(first, from) {
        first
    } else {
        window(journaled, below(journaled, from) as int, count)
    }
}

/// The bounded in-memory recent window: retains at most `capacity` most
/// recent frames; older frames age out.
pub struct MemStore {
    frames: VecDeque<Frame>,
    capacity: usize,
}

impl MemStore {
    #[verifier::type_invariant]
    spec fn inv(&self) -> bool {
        &&& self.capacity >= 1
        &&& self.frames@.len() <= self.capacity
        &&& forall|i: int| 0 <= i < self.frames@.len() ==> (#[trigger] self.frames@[i])@.valid()
    }

    /// The frames in the window.
    pub closed spec fn held(&self) -> Seq<Record> {
        records(self.frames@)
    }

    pub closed spec fn limit(&self) -> nat {
        self.capacity as nat
    }

    /// A store retaining the most recent `capacity` frames.
    pub fn with_capacity(capacity: usize) -> (r: Self)
        ensures
            r.held() == Seq::<Record>::empty(),
            r.limit() == if capacity > 1 {
                capacity as nat
            } else {
                1
            },
    {
        let capacity: usize = if capacity > 1 {
            capacity
        } else {
            1
        };
        let frames: VecDeque<Frame> = VecDeque::new();
        assert(records(frames@) =~= Seq::<Record>::empty());
        MemStore { frames, capacity }
    }

    /// The default recent window.
    pub fn new() -> (r: Self)
        ensures
            r.held() == Seq::<Record>::empty(),
            r.limit() == 262_144,
    {
        Self::with_capacity(262_144)
    }

    /// Records a frame behind what is stored.
    pub fn record(&mut self, frame: Frame)
        requires
            frame@.valid(),
            old(self).held().len() > 0 ==> frame@.seq == old(self).held().last().seq + 1,
        ensures
            final(self).limit() == old(self).limit(),
            final(self).held() == ({
                let all = old(self).held().push(frame@);
                if all.len() > old(self).limit() {
                    all.skip(1)
                } else {
                    all
                }
            }),
    {
        proof {
            use_type_invariant(&*self);
        }
        let ghost before = self.frames@;
        let ghost f = frame@;
        let mut frames: VecDeque<Frame> = VecDeque::new();
        std::mem::swap(&mut frames, &mut self.frames);
        frames.push_back(frame);
        assert(records(frames@) =~= records(before).push(f));
        if frames.len() > self.capacity {
            let ghost all = frames@;
            frames.pop_front();
            assert(frames@ =~= all.skip(1));
            assert(records(frames@) =~= records(all).skip(1));
        }
        self.frames = frames;
    }
}

impl Default for MemStore {
    fn default() -> (r: Self)
        ensures
            r.held() == Seq::<Record>::empty(),
            r.limit() == 262_144,
    {
        Self::new()
    }
}

impl FrameStore for MemStore {
    open spec fn reply(&self, from: u64, count: nat) -> Seq<Record> {
        held_from(self.held(), from, count)
    }

    open spec fn highest(&self) -> u64 {
        if self.held().len() == 0 {
            0
        } else {
            self.held().last().seq
        }
    }

    open spec fn lowest(&self) -> u64 {
        if self.held().len() == 0 {
            1
        } else {
            self.held()[0].seq
        }
    }

    open spec fn answers(&self) -> bool {
        true
    }

    open spec fn serves(&self, from: u64, count: nat) -> bool {
        true
    }

    open spec fn recent(&self) -> Kept {
        Kept { frames: self.held(), limit: self.limit() }
    }

    fn range(&mut self, from: SeqNo, count: usize) -> (r: Vec<Frame>) {
        proof {
            use_type_invariant(&*self);
        }
        let ghost all = self.held();
        let n: usize = self.frames.len();
        let mut out: Vec<Frame> = Vec::new();
        assert(records(out@) =~= Seq::<Record>::empty());
        if n == 0 {
            return out;
        }
        let base: u64 = self.frames[0].seq.0;
        assert(all[0] == self.frames@[0]@);
        if from.0 < base {
            return out;
        }
        if from.0 - base >= n as u64 {
            return out;
        }
        let start: usize = (from.0 - base) as usize;
        let end: usize = if n - start <= count {
            n
        } else {
            start + count
        };
        let mut i: usize = start;
        while i < end
            invariant
                start <= i <= end <= n == self.frames@.len(),
                all == self.held(),
                all.len() == n,
                records(out@) == all.subrange(start as int, i as int),
                forall|i: int|
                    0 <= i < self.frames@.len() ==> (#[trigger] self.frames@[i])@.valid(),
                forall|i: int| 0 <= i < out@.len() ==> (#[trigger] out@[i])@.valid(),
            decreases end - i,
        {
            let ghost before = out@;
            let frame = self.frames[i].clone();
            assert(frame@ == all[i as int]);
            out.push(frame);
            assert(records(out@) =~= records(before).push(all[i as int]));
            assert(all.subrange(start as int, i + 1) =~= all.subrange(start as int, i as int).push(
                all[i as int],
            ));
            i = i + 1;
        }
        assert(all.subrange(start as int, end as int) =~= window(all, start as int, count as nat));
        out
    }

    fn high_water(&mut self) -> (r: SeqNo) {
        let n: usize = self.frames.len();
        if n == 0 {
            SeqNo(0)
        } else {
            assert(self.held()[n - 1] == self.frames@[n - 1]@);
            self.frames[n - 1].seq
        }
    }

    fn low_water(&mut self) -> (r: SeqNo) {
        if self.frames.len() == 0 {
            SeqNo(1)
        } else {
            assert(self.held()[0] == self.frames@[0]@);
            self.frames[0].seq
        }
    }
}

/// How many frames in front have a seq below `from`.
pub open spec fn below(frames: Seq<Record>, from: u64) -> nat
    decreases frames.len(),
{
    if frames.len() == 0 || frames[0].seq >= from {
        0
    } else {
        1 + below(frames.skip(1), from)
    }
}

proof fn lemma_below(frames: Seq<Record>, from: u64, k: nat)
    requires
        k <= frames.len(),
        forall|i: int| 0 <= i < k ==> (#[trigger] frames[i]).seq < from,
        k < frames.len() ==> frames[k as int].seq >= from,
    ensures
        below(frames, from) == k,
    decreases k,
{
    if k > 0 {
        assert(frames[0].seq < from);
        assert forall|i: int| 0 <= i < k - 1 implies (#[trigger] frames.skip(1)[i]).seq < from by {
            assert(frames.skip(1)[i] == frames[i + 1]);
        }
        lemma_below(frames.skip(1), from, (k - 1) as nat);
    }
}

/// The journal-backed historical store: serves ranges by reading the journal
/// on demand, so late joiners cost disk reads, not memory. Bounded from below
/// by journal compaction.
pub struct JournalRewinder<St: Storage> {
    config: JournalConfig,
    storage: St,
}

impl<St: Storage> JournalRewinder<St> {
    pub closed spec fn disk(&self) -> DiskModel {
        self.storage.view()
    }

    pub closed spec fn dir(&self) -> Seq<u8> {
        self.config.dir@
    }

    pub closed spec fn reliable(&self) -> bool {
        self.storage.reliable()
    }

    /// The frames that the journal holds.
    pub open spec fn journaled(&self) -> Seq<Record> {
        (recover(self.disk(), self.dir())->Ok_0).frames
    }

    pub fn new(config: JournalConfig, storage: St) -> (r: Self)
        ensures
            r.disk() == storage.view(),
            r.dir() == config.dir@,
            r.reliable() == storage.reliable(),
    {
        JournalRewinder { config, storage }
    }

    /// Hands back the disk.
    pub fn into_storage(self) -> (r: St)
        ensures
            r.view() == self.disk(),
            r.reliable() == self.reliable(),
    {
        self.storage
    }

    /// Reads the journal: its first seq, its last, and its frames.
    fn load(&mut self) -> (r: Option<(SeqNo, SeqNo, Vec<Frame>)>)
        ensures
            final(self).reliable() == old(self).reliable(),
            final(self).dir() == old(self).dir(),
            match r {
                Some((first, last, frames)) => {
                    let found = recover(old(self).disk(), old(self).dir())->Ok_0;
                    &&& recover(old(self).disk(), old(self).dir()) is Ok
                    &&& recover(final(self).disk(), old(self).dir()) is Ok
                    &&& final(self).journaled() == old(self).journaled()
                    &&& (recover(final(self).disk(), old(self).dir())->Ok_0).next == found.next
                    &&& records(frames@) == old(self).journaled()
                    &&& last.0 == seq_before(found.next)
                    &&& first.0 == first_held(found.frames, found.next)
                    &&& forall|i: int|
                        0 <= i < frames@.len() ==> (#[trigger] frames@[i])@.valid()
                },
                None => true,
            },
            old(self).answers() ==> r is Some,
    {
        let ghost disk = self.storage.view();
        let ghost dir = self.config.dir@;
        match Journal::open_with(self.config.clone(), &mut self.storage) {
            Ok(rec) => {
                proof {
                    crate::journal::lemma_after_recovery(disk, dir);
                    crate::journal::lemma_recover_order(
                        segments(disk, dir),
                        disk.files,
                        segments(disk, dir).len(),
                    );
                    assert forall|i: int| 0 <= i < rec.frames@.len() implies (
                    #[trigger] rec.frames@[i])@.valid() by {
                        assert(records(rec.frames@)[i] == rec.frames@[i]@);
                    }
                }
                let last: SeqNo = rec.journal.last_seq();
                Some((rec.first_seq, last, rec.frames))
            },
            Err(_) => None,
        }
    }
}

/// The first seq that a journal with these frames holds, or would hold next.
pub open spec fn first_held(frames: Seq<Record>, next: u64) -> int {
    if frames.len() > 0 {
        frames[0].seq as int
    } else {
        seq_before(next) + 1
    }
}

impl<St: Storage> FrameStore for JournalRewinder<St> {
    open spec fn reply(&self, from: u64, count: nat) -> Seq<Record> {
        window(self.journaled(), below(self.journaled(), from) as int, count)
    }

    open spec fn highest(&self) -> u64 {
        seq_before((recover(self.disk(), self.dir())->Ok_0).next)
    }

    open spec fn lowest(&self) -> u64 {
        first_held(self.journaled(), (recover(self.disk(), self.dir())->Ok_0).next) as u64
    }

    open spec fn answers(&self) -> bool {
        self.reliable() && recover(self.disk(), self.dir()) is Ok
    }

    open spec fn serves(&self, from: u64, count: nat) -> bool {
        self.answers()
    }

    open spec fn recent(&self) -> Kept {
        Kept { frames: Seq::empty(), limit: 0 }
    }

    fn range(&mut self, from: SeqNo, count: usize) -> (r: Vec<Frame>) {
        let mut out: Vec<Frame> = Vec::new();
        assert(records(out@) =~= Seq::<Record>::empty());
        match self.load() {
            None => out,
            Some((_, _, frames)) => {
                let ghost all = records(frames@);
                let n: usize = frames.len();
                let mut start: usize = 0;
                while start < n && frames[start].seq.0 < from.0
                    invariant
                        start <= n == frames@.len() == all.len(),
                        all == records(frames@),
                        forall|i: int| 0 <= i < start ==> (#[trigger] all[i]).seq < from.0,
                    decreases n - start,
                {
                    assert(all[start as int] == frames@[start as int]@);
                    start = start + 1;
                }
                proof {
                    if start < n {
                        assert(all[start as int] == frames@[start as int]@);
                    }
                    lemma_below(all, from.0, start as nat);
                }
                let end: usize = if n - start <= count {
                    n
                } else {
                    start + count
                };
                let mut i: usize = start;
                while i < end
                    invariant
                        start <= i <= end <= n == frames@.len() == all.len(),
                        all == records(frames@),
                        records(out@) == all.subrange(start as int, i as int),
                        forall|i: int|
                            0 <= i < frames@.len() ==> (#[trigger] frames@[i])@.valid(),
                        forall|i: int| 0 <= i < out@.len() ==> (#[trigger] out@[i])@.valid(),
                    decreases end - i,
                {
                    let ghost before = out@;
                    let frame = frames[i].clone();
                    assert(frame@ == all[i as int]);
                    out.push(frame);
                    assert(records(out@) =~= records(before).push(all[i as int]));
                    assert(all.subrange(start as int, i + 1) =~= all.subrange(
                        start as int,
                        i as int,
                    ).push(all[i as int]));
                    i = i + 1;
                }
                assert(all.subrange(start as int, end as int) =~= window(
                    all,
                    start as int,
                    count as nat,
                ));
                out
            },
        }
    }

    fn high_water(&mut self) -> (r: SeqNo) {
        match self.load() {
            None => SeqNo(0),
            Some((_, last, _)) => last,
        }
    }

    fn low_water(&mut self) -> (r: SeqNo) {
        match self.load() {
            None => SeqNo(1),
            Some((first, _, _)) => first,
        }
    }
}

/// Tries `primary` (the recent window), and falls back to `secondary` (the
/// journal) for ranges that have aged out.
pub struct ChainStore<A, B> {
    pub primary: A,
    pub secondary: B,
}

impl<A: FrameStore, B: FrameStore> FrameStore for ChainStore<A, B> {
    open spec fn reply(&self, from: u64, count: nat) -> Seq<Record> {
        let first = self.primary.reply(from, count);
        if starts_at(first, from) {
            first
        } else {
            self.secondary.reply(from, count)
        }
    }

    open spec fn highest(&self) -> u64 {
        if self.primary.highest() > self.secondary.highest() {
            self.primary.highest()
        } else {
            self.secondary.highest()
        }
    }

    open spec fn lowest(&self) -> u64 {
        if self.primary.lowest() < self.secondary.lowest() {
            self.primary.lowest()
        } else {
            self.secondary.lowest()
        }
    }

    open spec fn answers(&self) -> bool {
        self.primary.answers() && self.secondary.answers()
    }

    open spec fn serves(&self, from: u64, count: nat) -> bool {
        &&& self.primary.serves(from, count)
        &&& starts_at(self.primary.reply(from, count), from) || self.secondary.serves(from, count)
    }

    open spec fn recent(&self) -> Kept {
        Kept {
            frames: self.primary.recent().frames + self.secondary.recent().frames,
            limit: self.primary.recent().limit + self.secondary.recent().limit,
        }
    }

    fn range(&mut self, from: SeqNo, count: usize) -> (r: Vec<Frame>) {
        let first = self.primary.range(from, count);
        if first.len() > 0 && first[0].seq.0 == from.0 {
            assert(records(first@)[0] == first@[0]@);
            first
        } else {
            proof {
                if first@.len() > 0 {
                    assert(records(first@)[0] == first@[0]@);
                }
            }
            self.secondary.range(from, count)
        }
    }

    fn high_water(&mut self) -> (r: SeqNo) {
        let a = self.primary.high_water();
        let b = self.secondary.high_water();
        if a.0 > b.0 {
            a
        } else {
            b
        }
    }

    fn low_water(&mut self) -> (r: SeqNo) {
        let a = self.primary.low_water();
        let b = self.secondary.low_water();
        if a.0 < b.0 {
            a
        } else {
            b
        }
    }
}

/// What is answered from frames without a gap is exactly those of the range that
/// was asked for that are there, in order: none where the range begins in front
/// of what is held.
pub proof fn law_answer_is_the_range_asked_for(held: Seq<Record>, from: u64, count: nat, k: int)
    requires
        forall|i: int| 0 <= i < held.len() ==> (#[trigger] held[i]).seq == held[0].seq + i,
    ensures
        ({
            let out = held_from(held, from, count);
            &&& out.len() <= count
            &&& forall|i: int| 0 <= i < out.len() ==> (#[trigger] out[i]).seq == from + i
            &&& held.len() == 0 || from < held[0].seq ==> out.len() == 0
            &&& 0 <= k < held.len() && held[0].seq <= from <= held[k].seq < from + count ==> {
                &&& held[k].seq - from < out.len()
                &&& out[held[k].seq - from] == held[k]
            }
            &&& starts_at(out, from) <==> out.len() > 0
        }),
{
    let out = held_from(held, from, count);
    if held.len() > 0 && from >= held[0].seq {
        let at = from - held[0].seq;
        assert forall|i: int| 0 <= i < out.len() implies (#[trigger] out[i]).seq == from + i by {
            assert(out[i] == held[at + i]);
        }
        if 0 <= k < held.len() && from <= held[k].seq < from + count {
            assert(held[k].seq == held[0].seq + k);
            assert(out[k - at] == held[k]);
        }
    }
}

/// The frames in front of a seq are those below it, and up to `count` of the
/// frames behind them are handed out, in order.
pub proof fn law_frames_below_are_left_out(frames: Seq<Record>, from: u64, count: nat, i: int)
    ensures
        ({
            let k = below(frames, from) as int;
            let out = window(frames, k, count);
            &&& k <= frames.len()
            &&& 0 <= i < k ==> frames[i].seq < from
            &&& k < frames.len() ==> frames[k].seq >= from
            &&& out.len() == if frames.len() - k < count {
                frames.len() - k
            } else {
                count as int
            }
            &&& 0 <= i < out.len() ==> out[i] == frames[k + i]
        }),
    decreases frames.len(),
{
    if frames.len() > 0 && frames[0].seq < from {
        let rest = frames.skip(1);
        law_frames_below_are_left_out(rest, from, count, i - 1);
        let k = below(rest, from) as int;
        if k < rest.len() {
            assert(rest[k] == frames[k + 1]);
        }
        if 0 < i <= k {
            assert(rest[i - 1] == frames[i]);
        }
    }
}

/// Two stores in a row answer from the first where it has the range's first
/// frame, and else from the second.
pub proof fn law_second_store_steps_in<A: FrameStore, B: FrameStore>(
    stores: ChainStore<A, B>,
    from: u64,
    count: nat,
)
    ensures
        ({
            let first = stores.primary.reply(from, count);
            &&& first.len() > 0 && first[0].seq == from ==> stores.reply(from, count) == first
            &&& first.len() == 0 || first[0].seq != from ==> stores.reply(from, count)
                == stores.secondary.reply(from, count)
            &&& stores.highest() >= stores.primary.highest()
            &&& stores.highest() >= stores.secondary.highest()
            &&& stores.highest() == stores.primary.highest() || stores.highest()
                == stores.secondary.highest()
            &&& stores.lowest() <= stores.primary.lowest()
            &&& stores.lowest() <= stores.secondary.lowest()
            &&& stores.lowest() == stores.primary.lowest() || stores.lowest()
                == stores.secondary.lowest()
        }),
{
}

/// A store tells the lowest and the highest seq that it holds; an empty one tells
/// 0 as the highest.
pub proof fn law_store_tells_its_ends(store: MemStore, frames: Seq<Record>, next: u64)
    ensures
        store.held().len() > 0 ==> {
            &&& store.lowest() == store.held()[0].seq
            &&& store.highest() == store.held()[store.held().len() - 1].seq
        },
        store.held().len() == 0 ==> store.highest() == 0 && store.lowest() == 1,
        frames.len() > 0 ==> first_held(frames, next) == frames[0].seq,
        frames.len() == 0 && next > 0 ==> first_held(frames, next) == next,
{
}

} // verus!
