//! The [`Service`] trait, the entire application contract, and [`Ctx`], the
//! only channel through which a service touches the world.

use vstd::prelude::*;

use crate::codec::{Decode, Encode};
use crate::seq::{SeqNo, Timestamp};

verus! {

/// Buffer of outputs emitted during one step.
#[derive(Debug)]
pub struct OutBuf<O> {
    items: Vec<O>,
}

impl<O> View for OutBuf<O> {
    type V = Seq<O>;

    closed spec fn view(&self) -> Seq<O> {
        self.items@
    }
}

impl<O> OutBuf<O> {
    pub fn new() -> (r: Self)
        ensures
            r@ == Seq::<O>::empty(),
    {
        OutBuf { items: Vec::new() }
    }

    pub fn push(&mut self, out: O)
        ensures
            final(self)@ == old(self)@.push(out),
    {
        self.items.push(out);
    }

    /// Takes everything out.
    pub fn drain(&mut self) -> (r: Vec<O>)
        ensures
            r@ == old(self)@,
            final(self)@ == Seq::<O>::empty(),
    {
        let mut taken: Vec<O> = Vec::new();
        std::mem::swap(&mut taken, &mut self.items);
        taken
    }

    pub fn is_empty(&self) -> (r: bool)
        ensures
            r == (self@.len() == 0),
    {
        self.items.len() == 0
    }
}

impl<O> Default for OutBuf<O> {
    fn default() -> (r: Self)
        ensures
            r@ == Seq::<O>::empty(),
    {
        Self::new()
    }
}

/// A timer scheduling request recorded during a step. The runtime drains
/// these into its timer wheel after each step; applications use
/// [`Ctx::set_timer`] and [`Ctx::cancel_timer`].
#[derive(Debug, Clone, Copy, PartialEq, Eq, Structural)]
pub enum TimerReq {
    /// Arm (or re-arm) timer `id` to fire when sequenced time reaches `at`.
    Arm { id: u64, at: Timestamp },
    /// Cancel timer `id` if it is pending.
    Cancel { id: u64 },
}

/// The deterministic execution context passed to a service.
///
/// Every capability here is deterministic: sequenced time, the current
/// sequence number, output emission, and timer scheduling.
pub struct Ctx<'a, O> {
    pub seq: SeqNo,
    pub now: Timestamp,
    pub outputs: &'a mut OutBuf<O>,
    pub timers: &'a mut Vec<TimerReq>,
}

impl<'a, O> Ctx<'a, O> {
    /// Constructs a context for one step. `timers` collects scheduling
    /// requests; contexts that cannot schedule pass a buffer whose contents
    /// are ignored.
    pub fn new(
        seq: SeqNo,
        now: Timestamp,
        outputs: &'a mut OutBuf<O>,
        timers: &'a mut Vec<TimerReq>,
    ) -> (c: Self)
        ensures
            c.seq == seq,
            c.now == now,
            *c.outputs == *old(outputs),
            *c.timers == *old(timers),
            *final(c.outputs) == *final(outputs),
            *final(c.timers) == *final(timers),
    {
        Ctx { seq, now, outputs, timers }
    }

    /// Deterministic time: the sequencer-assigned timestamp of the current
    /// frame.
    pub fn now(&self) -> (r: Timestamp)
        ensures
            r == self.now,
    {
        self.now
    }

    /// The sequence number of the frame being applied.
    pub fn seq(&self) -> (r: SeqNo)
        ensures
            r == self.seq,
    {
        self.seq
    }

    /// One output was emitted behind the others; all else stays.
    pub open spec fn emitted(&self, before: &Self, out: O) -> bool {
        &&& self.seq == before.seq
        &&& self.now == before.now
        &&& self.outputs@ == before.outputs@.push(out)
        &&& *self.timers == *before.timers
    }

    /// Emits an output event onto the sequenced stream.
    pub fn emit(&mut self, out: O)
        ensures
            final(self).emitted(old(self), out),
            *final(final(self).outputs) == *final(old(self).outputs),
            *final(final(self).timers) == *final(old(self).timers),
    {
        self.outputs.push(out);
    }

    /// Arms a deterministic timer: when sequenced time reaches `at`, a
    /// timer frame carrying `id` is sequenced and delivered to
    /// [`Service::on_timer`]. Re-arming an existing `id` replaces its
    /// deadline.
    pub fn set_timer(&mut self, id: u64, at: Timestamp)
        ensures
            final(self).seq == old(self).seq,
            final(self).now == old(self).now,
            *final(self).outputs == *old(self).outputs,
            final(self).timers@ == old(self).timers@.push(TimerReq::Arm { id, at }),
            *final(final(self).outputs) == *final(old(self).outputs),
            *final(final(self).timers) == *final(old(self).timers),
    {
        self.timers.push(TimerReq::Arm { id, at });
    }

    /// Cancels a pending timer. A no-op if `id` is not armed.
    pub fn cancel_timer(&mut self, id: u64)
        ensures
            final(self).seq == old(self).seq,
            final(self).now == old(self).now,
            *final(self).outputs == *old(self).outputs,
            final(self).timers@ == old(self).timers@.push(TimerReq::Cancel { id }),
            *final(final(self).outputs) == *final(old(self).outputs),
            *final(final(self).timers) == *final(old(self).timers),
    {
        self.timers.push(TimerReq::Cancel { id });
    }
}

/// Outputs that are emitted in turn, any number of them, stand behind those
/// that were there, in order; the seq, the time and the timer requests stay.
/// `run` is the context before each and behind the last.
pub proof fn law_emits_append_in_order<'a, O>(run: Seq<Ctx<'a, O>>, outs: Seq<O>)
    requires
        run.len() == outs.len() + 1,
        forall|i: int|
            0 <= i < outs.len() ==> (#[trigger] run[i + 1]).emitted(&run[i], outs[i]),
    ensures
        run.last().outputs@ == run[0].outputs@ + outs,
        run.last().seq == run[0].seq,
        run.last().now == run[0].now,
        *run.last().timers == *run[0].timers,
    decreases outs.len(),
{
    if outs.len() == 0 {
        assert(run[0].outputs@ + outs =~= run[0].outputs@);
    } else {
        let n = outs.len() - 1;
        let front = run.drop_last();
        let fewer = outs.drop_last();
        assert forall|i: int| 0 <= i < fewer.len() implies (#[trigger] front[i + 1]).emitted(
            &front[i],
            fewer[i],
        ) by {
            assert(run[i + 1].emitted(&run[i], outs[i]));
        }
        law_emits_append_in_order(front, fewer);
        assert(run[n + 1].emitted(&run[n], outs[n]));
        assert((run[0].outputs@ + fewer).push(outs[n]) =~= run[0].outputs@ + outs);
    }
}

/// What one step does: the state behind it, the outputs (as their canonical
/// bytes) and the timer requests, in order.
#[verifier::ext_equal]
pub struct Step {
    pub state: Seq<u8>,
    pub outputs: Seq<Seq<u8>>,
    pub timers: Seq<TimerReq>,
}

/// The canonical bytes of each output.
pub open spec fn encoded<T: Encode>(items: Seq<T>) -> Seq<Seq<u8>> {
    items.map_values(|x: T| x.bytes())
}

/// Every item can be encoded.
pub open spec fn all_encodable<T: Encode>(items: Seq<T>) -> bool {
    forall|i: int| 0 <= i < items.len() ==> (#[trigger] items[i]).encodable()
}

/// A deterministic replicated state machine.
///
/// What a step does is a function of the configuration, the state, the
/// sequence number, the sequenced time and the input, and of nothing else:
/// same inputs, same state and outputs, on every replica and every replay.
/// The state is known by the canonical bytes of its snapshot.
pub trait Service: Sized {
    /// The application command type.
    type Input: Decode;

    /// The application output/event type.
    type Output: Encode;

    /// Serializable snapshot of all state needed to resume.
    type Snapshot: Decode;

    /// Static configuration, identical on every replica.
    type Config;

    /// The application's input-schema version. A leader stamps it into the
    /// epoch fence; a replica rejects a stream whose version differs from its
    /// own.
    const SCHEMA_VERSION: u32 = 0;

    /// The configuration the service runs with.
    spec fn config(&self) -> Self::Config;

    /// The canonical bytes of the snapshot of the current state.
    spec fn state(&self) -> Seq<u8>;

    /// The state before any input.
    spec fn genesis_state(config: Self::Config) -> Seq<u8>;

    /// What applying an input, given by its canonical bytes, does.
    spec fn step(
        config: Self::Config,
        state: Seq<u8>,
        seq: u64,
        now: u64,
        input: Seq<u8>,
    ) -> Step;

    /// What the firing of timer `id` does.
    spec fn timer_step(config: Self::Config, state: Seq<u8>, seq: u64, now: u64, id: u64) -> Step;

    /// The state that restoring a snapshot, given by its bytes, leads to.
    spec fn restored(config: Self::Config, snapshot: Seq<u8>) -> Seq<u8>;

    /// Constructs the initial state (no inputs applied).
    fn genesis(config: &Self::Config) -> (s: Self)
        ensures
            s.config() == *config,
            s.state() == Self::genesis_state(*config),
    ;

    /// The step function. Called exactly once per sequenced input, in seq
    /// order, on every replica.
    fn apply(&mut self, seq: SeqNo, input: &Self::Input, ctx: &mut Ctx<'_, Self::Output>)
        requires
            input.encodable(),
            old(ctx).seq == seq,
        ensures
            final(self).config() == old(self).config(),
            ({
                let step = Self::step(
                    old(self).config(),
                    old(self).state(),
                    seq.0,
                    old(ctx).now.0,
                    input.bytes(),
                );
                &&& final(self).state() == step.state
                &&& encoded(final(ctx).outputs@) == encoded(old(ctx).outputs@) + step.outputs
                &&& final(ctx).timers@ == old(ctx).timers@ + step.timers
            }),
            all_encodable(old(ctx).outputs@) ==> all_encodable(final(ctx).outputs@),
            final(ctx).seq == old(ctx).seq,
            final(ctx).now == old(ctx).now,
            *final(final(ctx).outputs) == *final(old(ctx).outputs),
            *final(final(ctx).timers) == *final(old(ctx).timers),
    ;

    /// Handles a timer that reached its deadline. Called at the sequenced
    /// time the timer fired, exactly once, on every replica and replay.
    fn on_timer(&mut self, id: u64, ctx: &mut Ctx<'_, Self::Output>)
        ensures
            final(self).config() == old(self).config(),
            ({
                let step = Self::timer_step(
                    old(self).config(),
                    old(self).state(),
                    old(ctx).seq.0,
                    old(ctx).now.0,
                    id,
                );
                &&& final(self).state() == step.state
                &&& encoded(final(ctx).outputs@) == encoded(old(ctx).outputs@) + step.outputs
                &&& final(ctx).timers@ == old(ctx).timers@ + step.timers
            }),
            all_encodable(old(ctx).outputs@) ==> all_encodable(final(ctx).outputs@),
            final(ctx).seq == old(ctx).seq,
            final(ctx).now == old(ctx).now,
            *final(final(ctx).outputs) == *final(old(ctx).outputs),
            *final(final(ctx).timers) == *final(old(ctx).timers),
    ;

    /// Serializes the current state.
    fn snapshot(&self) -> (r: Self::Snapshot)
        ensures
            r.encodable(),
            r.bytes() == self.state(),
    ;

    /// Restores from a snapshot.
    fn restore(snap: Self::Snapshot, config: &Self::Config) -> (s: Self)
        requires
            snap.encodable(),
        ensures
            s.config() == *config,
            s.state() == Self::restored(*config, snap.bytes()),
    ;

    /// Restoring what a service saved gives its state back.
    proof fn law_restore_inverts_snapshot(&self)
        ensures
            Self::restored(self.config(), self.state()) == self.state(),
    ;
}

} // verus!
