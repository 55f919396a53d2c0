//! Per-session admission: dedup, gap detection, and windowed flow control.

use vstd::prelude::*;

verus! {

/// The verdict on one incoming client command.
#[derive(Debug, Clone, Copy, PartialEq, Eq, Structural)]
pub enum Admit {
    /// In order and within the window: sequence it.
    Accept,
    /// Already admitted (a retry after a lost ack): the effect happened.
    Duplicate,
    /// The client skipped ahead.
    Gap { expected: u64 },
    /// The window of unacknowledged commands is full. The client seq was not
    /// consumed; the same command is admissible once acks drain.
    Throttled,
}

/// What a session's admission knows.
#[verifier::ext_equal]
pub struct FlowModel {
    /// The client seq that comes next.
    pub next: u64,
    /// How many commands may be unacknowledged.
    pub window: u32,
    /// How many are.
    pub outstanding: u32,
}

impl FlowModel {
    /// The verdict on a client seq. The last client seq there is is never
    /// admitted.
    pub open spec fn verdict(self, client_seq: u64) -> Admit {
        if client_seq < self.next {
            Admit::Duplicate
        } else if client_seq > self.next {
            Admit::Gap { expected: self.next }
        } else if self.outstanding >= self.window || self.next == u64::MAX {
            Admit::Throttled
        } else {
            Admit::Accept
        }
    }

    pub open spec fn admitted(self, client_seq: u64) -> FlowModel {
        if self.verdict(client_seq) == Admit::Accept {
            FlowModel {
                next: (self.next + 1) as u64,
                outstanding: (self.outstanding + 1) as u32,
                ..self
            }
        } else {
            self
        }
    }

    pub open spec fn acked(self) -> FlowModel {
        FlowModel {
            outstanding: if self.outstanding > 0 {
                (self.outstanding - 1) as u32
            } else {
                0
            },
            ..self
        }
    }

    /// After client seqs came in, one after the other, and `acks` says of each
    /// whether an ack went out behind it.
    pub open spec fn ran(self, seqs: Seq<u64>, acks: Seq<bool>) -> FlowModel
        decreases seqs.len(),
    {
        if seqs.len() == 0 {
            self
        } else {
            let m = self.ran(seqs.drop_last(), acks).admitted(seqs.last());
            if acks[seqs.len() - 1] {
                m.acked()
            } else {
                m
            }
        }
    }
}

/// How often `seq` was accepted among client seqs that came in.
pub open spec fn accepts(m: FlowModel, seqs: Seq<u64>, acks: Seq<bool>, seq: u64) -> nat
    decreases seqs.len(),
{
    if seqs.len() == 0 {
        0
    } else {
        let before = m.ran(seqs.drop_last(), acks);
        accepts(m, seqs.drop_last(), acks, seq) + if seqs.last() == seq && before.verdict(seq)
            == Admit::Accept {
            1nat
        } else {
            0nat
        }
    }
}

/// However often a client retries, and whatever is acknowledged when, each
/// command is accepted at most once; and the accepted ones are exactly those
/// between the start and what is expected next.
pub proof fn law_exactly_once(m: FlowModel, seqs: Seq<u64>, acks: Seq<bool>, seq: u64)
    ensures
        m.next <= m.ran(seqs, acks).next,
        accepts(m, seqs, acks, seq) <= 1,
        accepts(m, seqs, acks, seq) == 1 <==> m.next <= seq < m.ran(seqs, acks).next,
    decreases seqs.len(),
{
    if seqs.len() > 0 {
        law_exactly_once(m, seqs.drop_last(), acks, seq);
    }
}

/// A refused command consumes nothing: it is as welcome afterwards as before.
pub proof fn law_refusal_consumes_nothing(m: FlowModel, client_seq: u64)
    ensures
        m.verdict(client_seq) != Admit::Accept ==> m.admitted(client_seq) == m,
        m.verdict(client_seq) == Admit::Throttled && m.outstanding > 0 && m.outstanding <= m.window
            && m.next < u64::MAX ==> m.acked().verdict(client_seq) == Admit::Accept,
{
}

/// One session's admission state. Client seqs start at 1.
#[derive(Debug, Clone)]
pub struct SessionFlow {
    next: u64,
    window: u32,
    outstanding: u32,
}

impl View for SessionFlow {
    type V = FlowModel;

    closed spec fn view(&self) -> FlowModel {
        FlowModel { next: self.next, window: self.window, outstanding: self.outstanding }
    }
}

impl SessionFlow {
    /// A fresh session expecting client seq 1, allowing up to `window`
    /// unacknowledged commands (1 is the single-outstanding discipline).
    pub fn new(window: u32) -> (r: Self)
        ensures
            r@ == (FlowModel {
                next: 1,
                window: if window > 1 {
                    window
                } else {
                    1
                },
                outstanding: 0,
            }),
    {
        Self::resume(0, window)
    }

    /// Resumes a session whose last admitted client seq was `last_admitted`.
    pub fn resume(last_admitted: u64, window: u32) -> (r: Self)
        requires
            last_admitted < u64::MAX,
        ensures
            r@ == (FlowModel {
                next: (last_admitted + 1) as u64,
                window: if window > 1 {
                    window
                } else {
                    1
                },
                outstanding: 0,
            }),
    {
        SessionFlow {
            next: last_admitted + 1,
            window: if window > 1 {
                window
            } else {
                1
            },
            outstanding: 0,
        }
    }

    pub fn try_admit(&mut self, client_seq: u64) -> (r: Admit)
        ensures
            r == old(self)@.verdict(client_seq),
            final(self)@ == old(self)@.admitted(client_seq),
    {
        if client_seq < self.next {
            return Admit::Duplicate;
        }
        if client_seq > self.next {
            return Admit::Gap { expected: self.next };
        }
        if self.outstanding >= self.window || self.next == u64::MAX {
            return Admit::Throttled;
        }
        self.next = self.next + 1;
        self.outstanding = self.outstanding + 1;
        Admit::Accept
    }

    /// An admitted command was sequenced and acked; the window frees a slot.
    pub fn on_acked(&mut self)
        ensures
            final(self)@ == old(self)@.acked(),
    {
        self.outstanding = self.outstanding.saturating_sub(1);
    }

    /// The next client seq this session must send.
    pub fn expected(&self) -> (r: u64)
        ensures
            r == self@.next,
    {
        self.next
    }
}

/// A command below the expected one is a duplicate, one above it leaves a gap,
/// and the expected one is accepted exactly while the window is open. Accepting
/// one expects the next and takes up a place in the window; an ack gives a place
/// back, and never more than were taken.
pub proof fn law_only_the_expected_command_is_accepted(m: FlowModel, client_seq: u64)
    ensures
        m.verdict(client_seq) == Admit::Duplicate <==> client_seq < m.next,
        m.verdict(client_seq) == (Admit::Gap { expected: m.next }) <==> m.next < client_seq,
        m.verdict(client_seq) == Admit::Accept <==> client_seq == m.next && m.outstanding
            < m.window && m.next < u64::MAX,
        m.verdict(client_seq) == Admit::Accept ==> {
            &&& m.admitted(client_seq).next == m.next + 1
            &&& m.admitted(client_seq).outstanding == m.outstanding + 1
        },
        m.admitted(client_seq).window == m.window,
        m.acked().next == m.next,
        m.acked().window == m.window,
        m.outstanding > 0 ==> m.acked().outstanding == m.outstanding - 1,
        m.outstanding == 0 ==> m.acked().outstanding == 0,
{
}

/// Whatever comes in and is acknowledged, no more commands are outstanding than
/// the window allows.
pub proof fn law_window_is_never_exceeded(m: FlowModel, seqs: Seq<u64>, acks: Seq<bool>)
    requires
        m.outstanding <= m.window,
    ensures
        m.ran(seqs, acks).outstanding <= m.window,
        m.ran(seqs, acks).window == m.window,
    decreases seqs.len(),
{
    if seqs.len() > 0 {
        law_window_is_never_exceeded(m, seqs.drop_last(), acks);
    }
}

} // verus!
