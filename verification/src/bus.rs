//! In-process fan-out of the sequenced stream: every subscriber receives
//! every sequenced frame, in seq order.

use vstd::prelude::*;

use crate::frame::{Frame, Record};
use crate::journal::records;

verus! {

/// One queue of frames per subscriber.
pub struct InProcBus {
    queues: Vec<Vec<Frame>>,
}

impl View for InProcBus {
    type V = Seq<Seq<Record>>;

    closed spec fn view(&self) -> Seq<Seq<Record>> {
        self.queues@.map_values(|q: Vec<Frame>| records(q@))
    }
}

/// What the subscribers have waiting once `f` is published.
pub open spec fn published(waiting: Seq<Seq<Record>>, f: Record) -> Seq<Seq<Record>> {
    waiting.map_values(|q: Seq<Record>| q.push(f))
}

/// Publishing frames one after the other.
pub open spec fn published_all(waiting: Seq<Seq<Record>>, frames: Seq<Record>) -> Seq<
    Seq<Record>,
> {
    waiting.map_values(|q: Seq<Record>| q + frames)
}

/// Publishing one more frame behind others.
pub proof fn lemma_published(waiting: Seq<Seq<Record>>, frames: Seq<Record>, f: Record)
    ensures
        published(published_all(waiting, frames), f) == published_all(waiting, frames.push(f)),
        published_all(waiting, Seq::empty()) == waiting,
{
    let a = published(published_all(waiting, frames), f);
    let b = published_all(waiting, frames.push(f));
    assert forall|i: int| 0 <= i < a.len() implies a[i] == b[i] by {
        assert((waiting[i] + frames).push(f) =~= waiting[i] + frames.push(f));
    }
    assert(a =~= b);
    let c = published_all(waiting, Seq::empty());
    assert forall|i: int| 0 <= i < c.len() implies c[i] == waiting[i] by {
        assert(waiting[i] + Seq::<Record>::empty() =~= waiting[i]);
    }
    assert(c =~= waiting);
}

/// Publishing frames behind others.
pub proof fn lemma_published_in_parts(
    waiting: Seq<Seq<Record>>,
    a: Seq<Record>,
    b: Seq<Record>,
)
    ensures
        published_all(published_all(waiting, a), b) == published_all(waiting, a + b),
{
    let x = published_all(published_all(waiting, a), b);
    let y = published_all(waiting, a + b);
    assert forall|i: int| 0 <= i < x.len() implies x[i] == y[i] by {
        assert((waiting[i] + a) + b =~= waiting[i] + (a + b));
    }
    assert(x =~= y);
}

impl InProcBus {
    pub fn new() -> (r: Self)
        ensures
            r@ == Seq::<Seq<Record>>::empty(),
    {
        let r = InProcBus { queues: Vec::new() };
        assert(r@ =~= Seq::<Seq<Record>>::empty());
        r
    }

    /// Adds a subscriber, who receives all frames from now on. Returns the
    /// number to drain its queue by.
    pub fn subscribe(&mut self) -> (r: usize)
        ensures
            r == old(self)@.len(),
            final(self)@ == old(self)@.push(Seq::empty()),
    {
        let n: usize = self.queues.len();
        let ghost before = self@;
        let fresh: Vec<Frame> = Vec::new();
        assert(records(fresh@) =~= Seq::<Record>::empty());
        self.queues.push(fresh);
        assert(self@ =~= before.push(Seq::empty()));
        n
    }

    /// Lets a subscriber leave: it receives no more frames, and what waits for
    /// it is gone. Those that came after it move up by one number. Nothing for
    /// a number that no subscriber has.
    pub fn unsubscribe(&mut self, id: usize)
        ensures
            final(self)@ == (if id < old(self)@.len() {
                old(self)@.remove(id as int)
            } else {
                old(self)@
            }),
    {
        let ghost before = self@;
        if id < self.queues.len() {
            let _ = self.queues.remove(id);
            assert(self@ =~= before.remove(id as int));
        }
    }

    /// Hands a frame to every subscriber.
    pub fn publish(&mut self, frame: &Frame)
        ensures
            final(self)@ == published(old(self)@, frame@),
    {
        let ghost before = self@;
        let n: usize = self.queues.len();
        let mut i: usize = 0;
        while i < n
            invariant
                i <= n == self.queues@.len() == before.len(),
                forall|j: int| 0 <= j < i ==> #[trigger] self@[j] == before[j].push(frame@),
                forall|j: int| i <= j < n ==> #[trigger] self@[j] == before[j],
            decreases n - i,
        {
            let ghost was = self.queues@;
            let ghost seen = self@;
            self.queues[i].push(frame.clone());
            proof {
                assert(self.queues@.len() == was.len());
                assert(records(self.queues@[i as int]@) =~= records(was[i as int]@).push(frame@));
                assert forall|j: int| 0 <= j < n && j != i implies #[trigger] self@[j]
                    == seen[j] by {
                    assert(self.queues@[j] == was[j]);
                }
                assert(seen[i as int] == before[i as int]);
            }
            i = i + 1;
        }
        assert(self@ =~= published(before, frame@));
    }

    /// Takes everything that waits for subscriber `id`; nothing for a number
    /// that no subscriber has.
    pub fn drain(&mut self, id: usize) -> (r: Vec<Frame>)
        ensures
            id < old(self)@.len() ==> records(r@) == old(self)@[id as int] && final(self)@ == old(
                self,
            )@.update(id as int, Seq::empty()),
            id >= old(self)@.len() ==> r@.len() == 0 && final(self)@ == old(self)@,
    {
        let ghost before = self@;
        let mut taken: Vec<Frame> = Vec::new();
        if id < self.queues.len() {
            assert(records(taken@) =~= Seq::<Record>::empty());
            std::mem::swap(&mut taken, &mut self.queues[id]);
            assert(self@ =~= before.update(id as int, Seq::empty()));
        }
        taken
    }
}

/// Every subscriber gets every frame that is published, once, behind what it has
/// waiting.
pub proof fn law_every_subscriber_gets_every_frame(
    waiting: Seq<Seq<Record>>,
    frames: Seq<Record>,
    f: Record,
    i: int,
)
    ensures
        published(waiting, f).len() == waiting.len(),
        published_all(waiting, frames).len() == waiting.len(),
        0 <= i < waiting.len() ==> {
            &&& published(waiting, f)[i].len() == waiting[i].len() + 1
            &&& published(waiting, f)[i].last() == f
            &&& published(waiting, f)[i].drop_last() == waiting[i]
            &&& published_all(waiting, frames)[i].take(waiting[i].len() as int) == waiting[i]
            &&& published_all(waiting, frames)[i].skip(waiting[i].len() as int) == frames
        },
{
    if 0 <= i < waiting.len() {
        assert(published(waiting, f)[i].drop_last() =~= waiting[i]);
        assert(published_all(waiting, frames)[i].take(waiting[i].len() as int) =~= waiting[i]);
        assert(published_all(waiting, frames)[i].skip(waiting[i].len() as int) =~= frames);
    }
}

} // verus!
