//! The sequencer's deterministic timer wheel.
//!
//! Services arm timers through [`crate::service::Ctx::set_timer`]; the
//! runtime keeps them here. When sequenced time reaches a timer's deadline,
//! the node pops it and sequences a timer frame, so firing is journaled and
//! replays identically everywhere. The wheel is rebuilt on replay from the
//! same requests and is part of the snapshot.
//!
//! Due timers fire in `(deadline, set-at-seq, id)` order.

use vstd::prelude::*;

use crate::seq::{SeqNo, Timestamp};
use crate::service::TimerReq;

verus! {

/// Armed timers: id to deadline and the seq it was armed at.
pub type Wheel = Map<u64, (u64, u64)>;

/// The wheel after one scheduling request recorded at `set_at`.
pub open spec fn scheduled(wheel: Wheel, req: TimerReq, set_at: u64) -> Wheel {
    match req {
        TimerReq::Arm { id, at } => wheel.insert(id, (at.0, set_at)),
        TimerReq::Cancel { id } => wheel.remove(id),
    }
}

/// The wheel after the requests of one step.
pub open spec fn scheduled_all(wheel: Wheel, reqs: Seq<TimerReq>, set_at: u64) -> Wheel
    decreases reqs.len(),
{
    if reqs.len() == 0 {
        wheel
    } else {
        scheduled(scheduled_all(wheel, reqs.drop_last(), set_at), reqs.last(), set_at)
    }
}

/// Whether timer `a` fires before timer `b`.
pub open spec fn fires_before(wheel: Wheel, a: u64, b: u64) -> bool {
    let (at_a, seq_a) = wheel[a];
    let (at_b, seq_b) = wheel[b];
    at_a < at_b || (at_a == at_b && (seq_a < seq_b || (seq_a == seq_b && a < b)))
}

/// Whether `id` is the timer that fires next at `now`.
pub open spec fn is_next(wheel: Wheel, now: u64, id: u64) -> bool {
    &&& wheel.contains_key(id)
    &&& wheel[id].0 <= now
    &&& forall|other: u64| #[trigger]
        wheel.contains_key(other) && other != id ==> fires_before(wheel, id, other)
}

/// The timer that fires next at `now`, if one is due.
pub open spec fn next_due(wheel: Wheel, now: u64) -> Option<u64> {
    if exists|id: u64| is_next(wheel, now, id) {
        Some(choose|id: u64| is_next(wheel, now, id))
    } else {
        None
    }
}

/// At most one timer fires next.
pub proof fn lemma_next_unique(wheel: Wheel, now: u64, a: u64, b: u64)
    requires
        is_next(wheel, now, a),
        is_next(wheel, now, b),
    ensures
        a == b,
{
    if a != b {
        assert(fires_before(wheel, a, b));
        assert(fires_before(wheel, b, a));
    }
}

/// Whether `list` is the wheel as `(id, deadline, set_at)`, sorted by id.
pub open spec fn is_wheel_list(list: Seq<(u64, u64, u64)>, wheel: Wheel) -> bool {
    &&& forall|i: int, j: int| 0 <= i < j < list.len() ==> list[i].0 < list[j].0
    &&& forall|i: int|
        0 <= i < list.len() ==> wheel.contains_key((#[trigger] list[i]).0) && wheel[list[i].0] == (
            list[i].1,
            list[i].2,
        )
    &&& forall|id: u64| #[trigger]
        wheel.contains_key(id) ==> exists|i: int| 0 <= i < list.len() && list[i].0 == id
}

/// The wheel as `(id, deadline, set_at)`, sorted by id.
pub open spec fn wheel_list(wheel: Wheel) -> Seq<(u64, u64, u64)> {
    choose|list: Seq<(u64, u64, u64)>| is_wheel_list(list, wheel)
}

/// A wheel has one such list.
pub proof fn lemma_wheel_list_unique(
    a: Seq<(u64, u64, u64)>,
    b: Seq<(u64, u64, u64)>,
    wheel: Wheel,
)
    requires
        is_wheel_list(a, wheel),
        is_wheel_list(b, wheel),
    ensures
        a == b,
{
    lemma_lists_agree(a, b, wheel, 0);
}

proof fn lemma_lists_agree(
    a: Seq<(u64, u64, u64)>,
    b: Seq<(u64, u64, u64)>,
    wheel: Wheel,
    k: int,
)
    requires
        is_wheel_list(a, wheel),
        is_wheel_list(b, wheel),
        0 <= k <= a.len(),
        k <= b.len(),
        forall|i: int| 0 <= i < k ==> a[i] == b[i],
    ensures
        a == b,
    decreases a.len() - k,
{
    if k == a.len() {
        if k < b.len() {
            assert(wheel.contains_key(b[k].0));
            let i = choose|i: int| 0 <= i < a.len() && a[i].0 == b[k].0;
            assert(b[i].0 < b[k].0);
        }
        assert(a =~= b);
    } else if k == b.len() {
        assert(wheel.contains_key(a[k].0));
        let i = choose|i: int| 0 <= i < b.len() && b[i].0 == a[k].0;
        assert(a[i].0 < a[k].0);
    } else {
        assert(wheel.contains_key(a[k].0));
        assert(wheel.contains_key(b[k].0));
        let i = choose|i: int| 0 <= i < b.len() && b[i].0 == a[k].0;
        let j = choose|j: int| 0 <= j < a.len() && a[j].0 == b[k].0;
        if i < k {
            assert(a[i].0 < a[k].0);
        }
        if j < k {
            assert(b[j].0 < b[k].0);
        }
        if i > k {
            assert(b[k].0 < b[i].0);
        }
        if j > k {
            assert(a[k].0 < a[j].0);
        }
        assert(a[k] == b[k]);
        lemma_lists_agree(a, b, wheel, k + 1);
    }
}

/// The timer that a request is about.
pub open spec fn about(req: TimerReq) -> u64 {
    match req {
        TimerReq::Arm { id, .. } => id,
        TimerReq::Cancel { id } => id,
    }
}

/// The last request of a step that is about `id` decides: where it arms, the
/// wheel holds `id` with that deadline and the step's seq, whether or not `id`
/// was pending before; where it cancels, `id` is not pending.
pub proof fn law_last_request_decides(
    wheel: Wheel,
    reqs: Seq<TimerReq>,
    set_at: u64,
    k: int,
    id: u64,
)
    requires
        0 <= k < reqs.len(),
        reqs[k] matches TimerReq::Arm { id: x, .. } ==> x == id,
        reqs[k] matches TimerReq::Cancel { id: x } ==> x == id,
        forall|j: int| k < j < reqs.len() ==> about(#[trigger] reqs[j]) != id,
    ensures
        reqs[k] matches TimerReq::Arm { at, .. } ==> {
            &&& scheduled_all(wheel, reqs, set_at).contains_key(id)
            &&& scheduled_all(wheel, reqs, set_at)[id] == (at.0, set_at)
        },
        reqs[k] is Cancel ==> !scheduled_all(wheel, reqs, set_at).contains_key(id),
    decreases reqs.len(),
{
    if k < reqs.len() - 1 {
        assert(about(reqs[reqs.len() - 1]) != id);
        assert forall|j: int| k < j < reqs.drop_last().len() implies about(
            #[trigger] reqs.drop_last()[j],
        ) != id by {
            assert(reqs.drop_last()[j] == reqs[j]);
        }
        law_last_request_decides(wheel, reqs.drop_last(), set_at, k, id);
    }
}

/// A timer that no request of a step is about stays as it was.
pub proof fn law_other_timers_stay(wheel: Wheel, reqs: Seq<TimerReq>, set_at: u64, id: u64)
    requires
        forall|j: int|
            0 <= j < reqs.len() ==> !((#[trigger] reqs[j]) matches TimerReq::Arm { id: x, .. }
                && x == id) && !(reqs[j] matches TimerReq::Cancel { id: x } && x == id),
    ensures
        scheduled_all(wheel, reqs, set_at).contains_key(id) <==> wheel.contains_key(id),
        wheel.contains_key(id) ==> scheduled_all(wheel, reqs, set_at)[id] == wheel[id],
    decreases reqs.len(),
{
    if reqs.len() > 0 {
        let last = reqs[reqs.len() - 1];
        assert(last == reqs.last());
        assert forall|j: int| 0 <= j < reqs.drop_last().len() implies !(
        (#[trigger] reqs.drop_last()[j]) matches TimerReq::Arm { id: x, .. } && x == id) && !(
        reqs.drop_last()[j] matches TimerReq::Cancel { id: x } && x == id) by {
            assert(reqs.drop_last()[j] == reqs[j]);
        }
        law_other_timers_stay(wheel, reqs.drop_last(), set_at, id);
    }
}

/// What fires next is due, and nothing in the wheel goes before it: by
/// deadline, then by the seq that armed it, then by id.
pub proof fn law_earliest_fires_first(wheel: Wheel, now: u64, id: u64)
    requires
        next_due(wheel, now) == Some(id),
    ensures
        wheel.contains_key(id),
        wheel[id].0 <= now,
        forall|other: u64| #[trigger]
            wheel.contains_key(other) ==> {
                &&& wheel[id].0 <= wheel[other].0
                &&& wheel[id].0 == wheel[other].0 ==> wheel[id].1 <= wheel[other].1
                &&& wheel[id].0 == wheel[other].0 && wheel[id].1 == wheel[other].1 ==> id <= other
            },
{
    assert(is_next(wheel, now, id));
    assert forall|other: u64| #[trigger] wheel.contains_key(other) implies {
        &&& wheel[id].0 <= wheel[other].0
        &&& wheel[id].0 == wheel[other].0 ==> wheel[id].1 <= wheel[other].1
        &&& wheel[id].0 == wheel[other].0 && wheel[id].1 == wheel[other].1 ==> id <= other
    } by {
        if other != id {
            assert(fires_before(wheel, id, other));
        }
    }
}

/// A wheel that is not empty has a timer that goes before all others.
proof fn lemma_has_earliest(wheel: Wheel)
    requires
        wheel.dom().finite(),
        wheel.dom().len() > 0,
    ensures
        exists|id: u64|
            #![trigger wheel.contains_key(id)]
            wheel.contains_key(id) && forall|other: u64|
                wheel.contains_key(other) && other != id ==> #[trigger] fires_before(
                    wheel,
                    id,
                    other,
                ),
    decreases wheel.dom().len(),
{
    let a = wheel.dom().choose();
    assert(wheel.contains_key(a));
    let rest = wheel.remove(a);
    assert(rest.dom() =~= wheel.dom().remove(a));
    if rest.dom().len() == 0 {
        assert forall|other: u64| wheel.contains_key(other) && other != a implies #[trigger] fires_before(
            wheel,
            a,
            other,
        ) by {
            assert(rest.dom().contains(other));
        }
    } else {
        lemma_has_earliest(rest);
        let b = choose|id: u64|
            #![trigger rest.contains_key(id)]
            rest.contains_key(id) && forall|other: u64|
                rest.contains_key(other) && other != id ==> #[trigger] fires_before(
                    rest,
                    id,
                    other,
                );
        let first = if fires_before(wheel, a, b) {
            a
        } else {
            b
        };
        assert(wheel.contains_key(first));
        assert forall|other: u64| wheel.contains_key(other) && other != first implies #[trigger] fires_before(
            wheel,
            first,
            other,
        ) by {
            if other != a && other != b {
                assert(fires_before(rest, b, other));
            }
        }
    }
}

/// From a timer's deadline on something is due; before all deadlines nothing
/// is.
pub proof fn law_due_from_the_deadline_on(wheel: Wheel, now: u64)
    requires
        wheel.dom().finite(),
    ensures
        next_due(wheel, now) is Some <==> exists|id: u64| #[trigger]
            wheel.contains_key(id) && wheel[id].0 <= now,
{
    if exists|id: u64| #[trigger] wheel.contains_key(id) && wheel[id].0 <= now {
        let id = choose|id: u64| #[trigger] wheel.contains_key(id) && wheel[id].0 <= now;
        assert(wheel.dom().contains(id));
        if wheel.dom().len() == 0 {
            assert(wheel.dom() =~= Set::empty());
        }
        lemma_has_earliest(wheel);
        let first = choose|x: u64|
            #![trigger wheel.contains_key(x)]
            wheel.contains_key(x) && forall|other: u64|
                wheel.contains_key(other) && other != x ==> #[trigger] fires_before(
                    wheel,
                    x,
                    other,
                );
        if first != id {
            assert(fires_before(wheel, first, id));
        }
        assert forall|other: u64| #[trigger]
            wheel.contains_key(other) && other != first implies fires_before(
            wheel,
            first,
            other,
        ) by {}
        assert(is_next(wheel, now, first));
    }
    if next_due(wheel, now) is Some {
        law_earliest_fires_first(wheel, now, next_due(wheel, now)->0);
    }
}

/// A step that arms `id` as its last word on it puts off what was pending:
/// before the new deadline `id` does not fire, and from it on, as long as
/// nothing goes before it, it does.
pub proof fn law_armed_timer_fires_at_its_deadline(
    wheel: Wheel,
    reqs: Seq<TimerReq>,
    set_at: u64,
    k: int,
    id: u64,
    at: Timestamp,
    now: u64,
)
    requires
        0 <= k < reqs.len(),
        reqs[k] == (TimerReq::Arm { id, at }),
        forall|j: int| k < j < reqs.len() ==> about(#[trigger] reqs[j]) != id,
    ensures
        now < at.0 ==> next_due(scheduled_all(wheel, reqs, set_at), now) != Some(id),
        at.0 <= now && (forall|other: u64| #[trigger]
            scheduled_all(wheel, reqs, set_at).contains_key(other) && other != id
                ==> scheduled_all(wheel, reqs, set_at)[other].0 > at.0) ==> next_due(
            scheduled_all(wheel, reqs, set_at),
            now,
        ) == Some(id),
{
    let after = scheduled_all(wheel, reqs, set_at);
    law_last_request_decides(wheel, reqs, set_at, k, id);
    if next_due(after, now) == Some(id) {
        law_earliest_fires_first(after, now, id);
    }
    if at.0 <= now && forall|other: u64| #[trigger]
        after.contains_key(other) && other != id ==> after[other].0 > at.0 {
        assert(is_next(after, now, id));
        lemma_next_unique(after, now, id, choose|x: u64| is_next(after, now, x));
    }
}

/// Armed timers, sorted by id.
pub struct TimerWheel {
    timers: Vec<(u64, u64, u64)>,
}

spec fn sorted(timers: Seq<(u64, u64, u64)>) -> bool {
    forall|i: int, j: int| 0 <= i < j < timers.len() ==> timers[i].0 < timers[j].0
}

spec fn place(timers: Seq<(u64, u64, u64)>, id: u64) -> int {
    choose|i: int| 0 <= i < timers.len() && (#[trigger] timers[i]).0 == id
}

spec fn armed(timers: Seq<(u64, u64, u64)>) -> Wheel {
    Map::new(
        |id: u64| exists|i: int| 0 <= i < timers.len() && (#[trigger] timers[i]).0 == id,
        |id: u64| (timers[place(timers, id)].1, timers[place(timers, id)].2),
    )
}

proof fn lemma_armed(timers: Seq<(u64, u64, u64)>)
    requires
        sorted(timers),
    ensures
        is_wheel_list(timers, armed(timers)),
        forall|i: int|
            0 <= i < timers.len() ==> armed(timers).contains_key((#[trigger] timers[i]).0)
                && armed(timers)[timers[i].0] == (timers[i].1, timers[i].2),
{
    assert forall|i: int| 0 <= i < timers.len() implies armed(timers).contains_key(
        (#[trigger] timers[i]).0,
    ) && armed(timers)[timers[i].0] == (timers[i].1, timers[i].2) by {
        let k = place(timers, timers[i].0);
        if k < i {
            assert(timers[k].0 < timers[i].0);
        } else if i < k {
            assert(timers[i].0 < timers[k].0);
        }
    }
}

/// A sorted list with the same ids and values as a map stands for that map.
proof fn lemma_armed_is(timers: Seq<(u64, u64, u64)>, wheel: Wheel)
    requires
        is_wheel_list(timers, wheel),
    ensures
        armed(timers) == wheel,
{
    lemma_armed(timers);
    assert forall|id: u64| armed(timers).contains_key(id) <==> wheel.contains_key(id) by {
        if wheel.contains_key(id) {
            let i = choose|i: int| 0 <= i < timers.len() && timers[i].0 == id;
            assert(timers[i].0 == id);
        }
    }
    assert forall|id: u64| armed(timers).contains_key(id) implies armed(timers)[id]
        == wheel[id] by {
        let i = choose|i: int| 0 <= i < timers.len() && (#[trigger] timers[i]).0 == id;
        assert(wheel.contains_key(timers[i].0));
    }
    assert(armed(timers) =~= wheel);
}

impl View for TimerWheel {
    type V = Wheel;

    closed spec fn view(&self) -> Wheel {
        armed(self.timers@)
    }
}

impl TimerWheel {
    #[verifier::type_invariant]
    spec fn wf(&self) -> bool {
        sorted(self.timers@)
    }

    pub fn new() -> (r: Self)
        ensures
            r@ == Wheel::empty(),
    {
        let r = TimerWheel { timers: Vec::new() };
        assert(r@ =~= Wheel::empty());
        r
    }

    /// Applies one scheduling request recorded during the step at `set_at`.
    pub fn apply(&mut self, req: TimerReq, set_at: SeqNo)
        ensures
            final(self)@ == scheduled(old(self)@, req, set_at.0),
            req matches TimerReq::Arm { id, at } ==> final(self)@ == old(self)@.insert(
                id,
                (at.0, set_at.0),
            ),
            req matches TimerReq::Cancel { id } ==> final(self)@ == old(self)@.remove(id),
    {
        match req {
            TimerReq::Arm { id, at } => self.set(id, at, set_at),
            TimerReq::Cancel { id } => self.cancel(id),
        }
    }

    /// Applies the requests of one step, in order.
    pub fn apply_all(&mut self, reqs: &Vec<TimerReq>, set_at: SeqNo)
        ensures
            final(self)@ == scheduled_all(old(self)@, reqs@, set_at.0),
    {
        let mut i: usize = 0;
        let ghost start = self@;
        assert(reqs@.take(0) =~= Seq::<TimerReq>::empty());
        while i < reqs.len()
            invariant
                i <= reqs@.len(),
                self@ == scheduled_all(start, reqs@.take(i as int), set_at.0),
            decreases reqs@.len() - i,
        {
            proof {
                let t = reqs@.take(i + 1);
                assert(t.drop_last() =~= reqs@.take(i as int));
                assert(t.last() == reqs@[i as int]);
            }
            self.apply(reqs[i], set_at);
            i = i + 1;
        }
        assert(reqs@.take(reqs@.len() as int) =~= reqs@);
    }

    /// Arms or re-arms `id`; re-arming replaces the old deadline.
    pub fn set(&mut self, id: u64, at: Timestamp, set_at: SeqNo)
        ensures
            final(self)@ == old(self)@.insert(id, (at.0, set_at.0)),
    {
        proof {
            use_type_invariant(&*self);
        }
        let ghost start = self.timers@;
        let ghost wheel = self@.insert(id, (at.0, set_at.0));
        let mut timers: Vec<(u64, u64, u64)> = Vec::new();
        std::mem::swap(&mut timers, &mut self.timers);
        proof {
            lemma_armed(start);
        }
        let mut k: usize = 0;
        while k < timers.len() && timers[k].0 < id
            invariant
                k <= timers@.len(),
                timers@ == start,
                sorted(start),
                forall|i: int| 0 <= i < k ==> (#[trigger] start[i]).0 < id,
            decreases timers@.len() - k,
        {
            k = k + 1;
        }
        if k < timers.len() && timers[k].0 == id {
            timers.set(k, (id, at.0, set_at.0));
            proof {
                let end = timers@;
                assert forall|x: u64| #[trigger] wheel.contains_key(x) implies exists|i: int|
                    0 <= i < end.len() && end[i].0 == x by {
                    if x == id {
                        assert(end[k as int].0 == x);
                    } else {
                        let i = choose|i: int|
                            0 <= i < start.len() && (#[trigger] start[i]).0 == x;
                        assert(end[i].0 == x);
                    }
                }
                assert forall|i: int| 0 <= i < end.len() implies wheel.contains_key(
                    (#[trigger] end[i]).0,
                ) && wheel[end[i].0] == (end[i].1, end[i].2) by {
                    assert(armed(start).contains_key(start[i].0));
                    if i < k {
                        assert(start[i].0 < start[k as int].0);
                    } else if i > k {
                        assert(start[k as int].0 < start[i].0);
                    }
                }
                lemma_armed_is(end, wheel);
            }
        } else {
            timers.insert(k, (id, at.0, set_at.0));
            proof {
                let end = timers@;
                assert forall|i: int| k <= i < start.len() implies id < (#[trigger] start[i]).0 by {
                    if i > k {
                        assert(start[k as int].0 < start[i].0);
                    }
                }
                assert forall|i: int, j: int| 0 <= i < j < end.len() implies end[i].0
                    < end[j].0 by {
                    let a = if i < k {
                        i
                    } else {
                        i - 1
                    };
                    let b = if j < k {
                        j
                    } else {
                        j - 1
                    };
                    if i != k {
                        assert(end[i] == start[a]);
                    }
                    if j != k {
                        assert(end[j] == start[b]);
                    }
                    if i != k && j != k {
                        assert(start[a].0 < start[b].0);
                    }
                }
                assert forall|x: u64| #[trigger] wheel.contains_key(x) implies exists|i: int|
                    0 <= i < end.len() && end[i].0 == x by {
                    if x == id {
                        assert(end[k as int].0 == x);
                    } else {
                        let i = choose|i: int|
                            0 <= i < start.len() && (#[trigger] start[i]).0 == x;
                        if i < k {
                            assert(end[i].0 == x);
                        } else {
                            assert(end[i + 1].0 == x);
                        }
                    }
                }
                assert forall|i: int| 0 <= i < end.len() implies wheel.contains_key(
                    (#[trigger] end[i]).0,
                ) && wheel[end[i].0] == (end[i].1, end[i].2) by {
                    if i != k {
                        let a = if i < k {
                            i
                        } else {
                            i - 1
                        };
                        assert(end[i] == start[a]);
                        assert(armed(start).contains_key(start[a].0));
                    }
                }
                lemma_armed_is(end, wheel);
            }
        }
        self.timers = timers;
    }

    /// Cancels `id` if pending (also how a fired timer is removed).
    pub fn cancel(&mut self, id: u64)
        ensures
            final(self)@ == old(self)@.remove(id),
    {
        proof {
            use_type_invariant(&*self);
        }
        let ghost start = self.timers@;
        let ghost wheel = self@.remove(id);
        let mut timers: Vec<(u64, u64, u64)> = Vec::new();
        std::mem::swap(&mut timers, &mut self.timers);
        proof {
            lemma_armed(start);
        }
        let mut k: usize = 0;
        while k < timers.len() && timers[k].0 != id
            invariant
                k <= timers@.len(),
                timers@ == start,
                forall|i: int| 0 <= i < k ==> (#[trigger] start[i]).0 != id,
            decreases timers@.len() - k,
        {
            k = k + 1;
        }
        if k < timers.len() {
            let _ = timers.remove(k);
        }
        proof {
            let end = timers@;
            let at = |i: int|
                if i < k {
                    i
                } else {
                    i + 1
                };
            assert forall|i: int| 0 <= i < end.len() implies #[trigger] end[i] == start[at(i)]
                && end[i].0 != id by {
                if i >= k {
                    assert(start[k as int].0 < start[i + 1].0);
                }
            }
            assert forall|i: int, j: int| 0 <= i < j < end.len() implies end[i].0 < end[j].0 by {
                assert(start[at(i)].0 < start[at(j)].0);
            }
            assert forall|x: u64| #[trigger] wheel.contains_key(x) implies exists|i: int|
                0 <= i < end.len() && end[i].0 == x by {
                let i = choose|i: int| 0 <= i < start.len() && (#[trigger] start[i]).0 == x;
                if i < k {
                    assert(end[i].0 == x);
                } else {
                    assert(end[i - 1].0 == x);
                }
            }
            assert forall|i: int| 0 <= i < end.len() implies wheel.contains_key(
                (#[trigger] end[i]).0,
            ) && wheel[end[i].0] == (end[i].1, end[i].2) by {
                assert(armed(start).contains_key(start[at(i)].0));
            }
            lemma_armed_is(end, wheel);
        }
        self.timers = timers;
    }

    /// Removes and returns the earliest timer due at `now` (deadline at or
    /// before it), in `(deadline, set-at, id)` order; nothing where none is
    /// due.
    pub fn pop_due(&mut self, now: Timestamp) -> (r: Option<u64>)
        ensures
            r == next_due(old(self)@, now.0),
            match r {
                Some(id) => is_next(old(self)@, now.0, id) && final(self)@ == old(self)@.remove(
                    id,
                ),
                None => final(self)@ == old(self)@ && forall|id: u64| #[trigger]
                    old(self)@.contains_key(id) ==> old(self)@[id].0 > now.0,
            },
    {
        let due = self.peek_due(now);
        if let Some(id) = due {
            self.cancel(id);
        }
        due
    }

    /// The timer that [`Self::pop_due`] would return.
    pub fn peek_due(&self, now: Timestamp) -> (r: Option<u64>)
        ensures
            r == next_due(self@, now.0),
            match r {
                Some(id) => is_next(self@, now.0, id),
                None => forall|id: u64| #[trigger]
                    self@.contains_key(id) ==> self@[id].0 > now.0,
            },
    {
        proof {
            use_type_invariant(self);
            lemma_armed(self.timers@);
        }
        let ghost wheel = self@;
        let n: usize = self.timers.len();
        if n == 0 {
            assert forall|id: u64| !wheel.contains_key(id) by {}
            return None;
        }
        let mut best: usize = 0;
        let mut i: usize = 1;
        while i < n
            invariant
                0 <= best < i <= n == self.timers@.len(),
                wheel == self@,
                sorted(self.timers@),
                is_wheel_list(self.timers@, wheel),
                forall|k: int|
                    0 <= k < i && k != best ==> fires_before(
                        wheel,
                        self.timers@[best as int].0,
                        (#[trigger] self.timers@[k]).0,
                    ),
            decreases n - i,
        {
            let (id, at, seq) = self.timers[i];
            let (best_id, best_at, best_seq) = self.timers[best];
            proof {
                let t = self.timers@;
                assert(wheel[t[i as int].0] == (at, seq));
                assert(wheel[t[best as int].0] == (best_at, best_seq));
                assert(best_id < id);
            }
            if at < best_at || (at == best_at && seq < best_seq) {
                proof {
                    let t = self.timers@;
                    assert forall|k: int| 0 <= k < i + 1 && k != i implies fires_before(
                        wheel,
                        t[i as int].0,
                        (#[trigger] t[k]).0,
                    ) by {
                        if k != best {
                            assert(fires_before(wheel, t[best as int].0, t[k].0));
                        }
                    }
                }
                best = i;
            }
            i = i + 1;
        }
        let (id, at, _) = self.timers[best];
        proof {
            let t = self.timers@;
            assert(wheel[t[best as int].0] == (at, t[best as int].2));
            assert forall|other: u64| #[trigger]
                wheel.contains_key(other) && other != id implies fires_before(
                wheel,
                id,
                other,
            ) by {
                let k = choose|k: int| 0 <= k < t.len() && t[k].0 == other;
                assert(fires_before(wheel, t[best as int].0, t[k].0));
            }
        }
        if at > now.0 {
            assert forall|x: u64| #[trigger] wheel.contains_key(x) implies wheel[x].0 > now.0 by {
                if x != id {
                    assert(fires_before(wheel, id, x));
                }
            }
            assert forall|x: u64| !is_next(wheel, now.0, x) by {}
            return None;
        }
        proof {
            assert(is_next(wheel, now.0, id));
            lemma_next_unique(wheel, now.0, id, choose|x: u64| is_next(wheel, now.0, x));
        }
        Some(id)
    }

    /// The wheel for the snapshot as `(id, deadline_nanos, set_at_seq)`, in
    /// id order.
    pub fn snapshot(&self) -> (r: Vec<(u64, u64, u64)>)
        ensures
            r@ == wheel_list(self@),
            is_wheel_list(r@, self@),
    {
        proof {
            use_type_invariant(self);
            lemma_armed(self.timers@);
        }
        let mut out: Vec<(u64, u64, u64)> = Vec::new();
        let mut i: usize = 0;
        while i < self.timers.len()
            invariant
                i <= self.timers@.len(),
                out@ == self.timers@.take(i as int),
            decreases self.timers@.len() - i,
        {
            out.push(self.timers[i]);
            assert(out@ =~= self.timers@.take(i + 1));
            i = i + 1;
        }
        proof {
            assert(out@ =~= self.timers@);
            lemma_wheel_list_unique(out@, wheel_list(self@), self@);
        }
        out
    }

    /// Rebuilds from what [`Self::snapshot`] gave.
    pub fn restore(entries: Vec<(u64, u64, u64)>) -> (r: Self)
        ensures
            r@ == rebuilt(entries@),
    {
        let mut wheel = TimerWheel::new();
        let mut i: usize = 0;
        assert(entries@.take(0) =~= Seq::<(u64, u64, u64)>::empty());
        while i < entries.len()
            invariant
                i <= entries@.len(),
                wheel@ == rebuilt(entries@.take(i as int)),
            decreases entries@.len() - i,
        {
            let (id, at, seq) = entries[i];
            proof {
                let t = entries@.take(i + 1);
                assert(t.drop_last() =~= entries@.take(i as int));
                assert(t.last() == entries@[i as int]);
            }
            wheel.set(id, Timestamp(at), SeqNo(seq));
            i = i + 1;
        }
        assert(entries@.take(entries@.len() as int) =~= entries@);
        wheel
    }

    /// Number of pending timers.
    pub fn len(&self) -> (r: usize)
        ensures
            r == self@.len(),
            r == wheel_list(self@).len(),
    {
        proof {
            use_type_invariant(self);
            lemma_armed(self.timers@);
            lemma_wheel_list_unique(self.timers@, wheel_list(self@), self@);
            lemma_wheel_size(self.timers@, self@);
        }
        self.timers.len()
    }
}

/// A wheel holds as many timers as its list.
proof fn lemma_wheel_size(list: Seq<(u64, u64, u64)>, wheel: Wheel)
    requires
        is_wheel_list(list, wheel),
    ensures
        wheel.dom().finite(),
        wheel.dom().len() == list.len(),
    decreases list.len(),
{
    if list.len() == 0 {
        assert(wheel.dom() =~= Set::empty());
    } else {
        let last = list.last();
        let front = list.drop_last();
        let rest = wheel.remove(last.0);
        assert forall|id: u64| #[trigger] rest.contains_key(id) implies exists|i: int|
            0 <= i < front.len() && front[i].0 == id by {
            assert(wheel.contains_key(id));
            let i = choose|i: int| 0 <= i < list.len() && list[i].0 == id;
            assert(i < list.len() - 1);
            assert(front[i].0 == id);
        }
        assert forall|i: int| 0 <= i < front.len() implies rest.contains_key(
            (#[trigger] front[i]).0,
        ) && rest[front[i].0] == (front[i].1, front[i].2) by {
            assert(list[i] == front[i]);
            assert(list[i].0 < list[list.len() - 1].0);
        }
        lemma_wheel_size(front, rest);
        assert(wheel.contains_key(list[list.len() - 1].0));
        assert(wheel.dom() =~= rest.dom().insert(last.0));
    }
}

/// The wheel that setting each entry in turn gives.
pub open spec fn rebuilt(entries: Seq<(u64, u64, u64)>) -> Wheel
    decreases entries.len(),
{
    if entries.len() == 0 {
        Map::empty()
    } else {
        let last = entries.last();
        rebuilt(entries.drop_last()).insert(last.0, (last.1, last.2))
    }
}

/// Rebuilding from a wheel's list gives the wheel.
pub proof fn law_restore_inverts_snapshot(list: Seq<(u64, u64, u64)>, wheel: Wheel)
    requires
        is_wheel_list(list, wheel),
    ensures
        rebuilt(list) == wheel,
    decreases list.len(),
{
    if list.len() == 0 {
        assert forall|id: u64| !wheel.contains_key(id) by {}
        assert(wheel =~= Map::empty());
    } else {
        let last = list.last();
        let front = list.drop_last();
        let rest = wheel.remove(last.0);
        assert forall|id: u64| #[trigger] rest.contains_key(id) implies exists|i: int|
            0 <= i < front.len() && front[i].0 == id by {
            assert(wheel.contains_key(id));
            let i = choose|i: int| 0 <= i < list.len() && list[i].0 == id;
            assert(front[i].0 == id);
        }
        assert forall|i: int| 0 <= i < front.len() implies rest.contains_key(
            (#[trigger] front[i]).0,
        ) && rest[front[i].0] == (front[i].1, front[i].2) by {
            assert(list[i] == front[i]);
            assert(list[i].0 < list[list.len() - 1].0);
        }
        law_restore_inverts_snapshot(front, rest);
        assert(wheel.contains_key(list[list.len() - 1].0));
        assert(wheel =~= rest.insert(last.0, (last.1, last.2)));
    }
}

} // verus!
