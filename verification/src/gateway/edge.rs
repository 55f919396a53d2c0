//! The gateway's sessions: who is connected, what each session has been sent,
//! and where an event goes. Connections are known by number; what is to be
//! sent comes out as a list, and a connection that turns out to be dead is
//! reported back.

use vstd::prelude::*;

use std::collections::{BTreeMap, VecDeque};

use crate::codec::Encode;
use crate::gateway::flow::{Admit, FlowModel, SessionFlow};
use crate::gateway::message::{framed, write_msg, Addressed, ServerMsg};
use crate::service::all_encodable;

verus! {

/// The gateway's settings.
#[derive(Debug)]
pub struct ServeConfig {
    /// Max unacknowledged commands per session (1 is single-outstanding).
    pub window: u32,
    /// Sessions recovered from the journaled envelopes, with the last client
    /// seq admitted of each.
    pub resume: Vec<(u64, u64)>,
    /// How many recent outbound events to retain per session for reconnect
    /// replay. A client that fell further behind sees a gap in event seqs and
    /// must resync.
    pub outbox_capacity: usize,
}

impl Default for ServeConfig {
    fn default() -> (r: Self)
        ensures
            r.window == 64,
            r.resume@.len() == 0,
            r.outbox_capacity == 1024,
    {
        ServeConfig { window: 64, resume: Vec::new(), outbox_capacity: 1024 }
    }
}

/// Bytes for a connection of a session.
#[derive(Debug, PartialEq, Eq)]
pub struct Outgoing {
    pub session: u64,
    pub conn: u64,
    pub bytes: Vec<u8>,
}

/// The same, as data.
#[verifier::ext_equal]
pub struct Sent {
    pub session: u64,
    pub conn: u64,
    pub bytes: Seq<u8>,
}

impl View for Outgoing {
    type V = Sent;

    open spec fn view(&self) -> Sent {
        Sent { session: self.session, conn: self.conn, bytes: self.bytes@ }
    }
}

/// What is sent, as data.
pub open spec fn sent(list: Seq<Outgoing>) -> Seq<Sent> {
    list.map_values(|o: Outgoing| o@)
}

/// A session: its connections and a bounded outbox of recent events.
#[verifier::ext_equal]
pub struct SinksModel {
    /// The command connection.
    pub cmd: Option<u64>,
    /// The drop-copy observers.
    pub watchers: Seq<u64>,
    /// The event seq that is assigned next.
    pub next_event_seq: u64,
    /// Recent events with their seqs, oldest first.
    pub outbox: Seq<(u64, Seq<u8>)>,
}

pub open spec fn fresh_sinks() -> SinksModel {
    SinksModel { cmd: None, watchers: Seq::empty(), next_event_seq: 1, outbox: Seq::empty() }
}

/// The events behind `from` that are still held, in order.
pub open spec fn held_after(outbox: Seq<(u64, Seq<u8>)>, from: u64) -> Seq<Seq<u8>>
    decreases outbox.len(),
{
    if outbox.len() == 0 {
        Seq::empty()
    } else {
        let front = held_after(outbox.drop_last(), from);
        if outbox.last().0 > from {
            front.push(outbox.last().1)
        } else {
            front
        }
    }
}

/// Messages for one connection.
pub open spec fn all_to(session: u64, conn: u64, messages: Seq<Seq<u8>>) -> Seq<Sent> {
    messages.map_values(|bytes: Seq<u8>| Sent { session, conn, bytes })
}

/// One message for several connections.
pub open spec fn to_each(session: u64, conns: Seq<u64>, bytes: Seq<u8>) -> Seq<Sent> {
    conns.map_values(|conn: u64| Sent { session, conn, bytes })
}

/// The last `capacity` of the events.
pub open spec fn trimmed(outbox: Seq<(u64, Seq<u8>)>, capacity: nat) -> Seq<(u64, Seq<u8>)> {
    if outbox.len() > capacity {
        outbox.skip(outbox.len() - capacity)
    } else {
        outbox
    }
}

/// The bytes of an event with its seq.
pub open spec fn event_bytes<E: Encode>(event_seq: u64, event: E) -> Seq<u8> {
    framed((ServerMsg::Event { event_seq, event }).bytes())
}

impl SinksModel {
    /// With an event taken in.
    pub open spec fn taking<E: Encode>(self, event: E, capacity: nat) -> SinksModel {
        SinksModel {
            next_event_seq: if self.next_event_seq < u64::MAX {
                (self.next_event_seq + 1) as u64
            } else {
                u64::MAX
            },
            outbox: trimmed(
                self.outbox.push((self.next_event_seq, event_bytes(self.next_event_seq, event))),
                capacity,
            ),
            ..self
        }
    }

    /// What taking an event in sends: to the command connection, then to every
    /// observer.
    pub open spec fn sends<E: Encode>(self, session: u64, event: E) -> Seq<Sent> {
        let bytes = event_bytes(self.next_event_seq, event);
        let first = match self.cmd {
            Some(conn) => seq![Sent { session, conn, bytes }],
            None => Seq::empty(),
        };
        first + to_each(session, self.watchers, bytes)
    }
}

/// All sessions.
#[verifier::ext_equal]
pub struct EdgeModel {
    pub flows: Map<u64, FlowModel>,
    pub sinks: Map<u64, SinksModel>,
    pub window: u32,
    pub capacity: nat,
}

impl EdgeModel {
    /// The admission state of a session; a session not heard of is fresh.
    pub open spec fn flow(self, session: u64) -> FlowModel {
        if self.flows.contains_key(session) {
            self.flows[session]
        } else {
            FlowModel {
                next: 1,
                window: if self.window > 1 {
                    self.window
                } else {
                    1
                },
                outstanding: 0,
            }
        }
    }

    pub open spec fn session(self, session: u64) -> SinksModel {
        if self.sinks.contains_key(session) {
            self.sinks[session]
        } else {
            fresh_sinks()
        }
    }

    pub open spec fn with_flow(self, session: u64, flow: FlowModel) -> EdgeModel {
        EdgeModel { flows: self.flows.insert(session, flow), ..self }
    }

    pub open spec fn with_session(self, session: u64, sinks: SinksModel) -> EdgeModel {
        EdgeModel { sinks: self.sinks.insert(session, sinks), ..self }
    }

    /// Without a connection of a session that is dead.
    pub open spec fn without_conn(self, session: u64, conn: u64) -> EdgeModel {
        if self.sinks.contains_key(session) {
            let s = self.session(session);
            self.with_session(
                session,
                SinksModel {
                    cmd: if s.cmd == Some(conn) {
                        None
                    } else {
                        s.cmd
                    },
                    watchers: without(s.watchers, conn),
                    ..s
                },
            )
        } else {
            self
        }
    }

    /// What a message for a session's command connection sends.
    pub open spec fn reply(self, session: u64, bytes: Seq<u8>) -> Seq<Sent> {
        if self.sinks.contains_key(session) {
            match self.sinks[session].cmd {
                Some(conn) => seq![Sent { session, conn, bytes: framed(bytes) }],
                None => Seq::empty(),
            }
        } else {
            Seq::empty()
        }
    }

    /// With events routed, one after the other, and what that sends.
    pub open spec fn routed<E: Encode>(self, outputs: Seq<Addressed<E>>) -> (EdgeModel, Seq<Sent>)
        decreases outputs.len(),
    {
        if outputs.len() == 0 {
            (self, Seq::empty())
        } else {
            let (before, list) = self.routed(outputs.drop_last());
            let last = outputs.last();
            let sinks = before.session(last.session);
            (
                before.with_session(last.session, sinks.taking(last.event, self.capacity)),
                list + sinks.sends(last.session, last.event),
            )
        }
    }
}

/// Routing events touches no session's admission.
pub proof fn lemma_routed_flows<E: Encode>(m: EdgeModel, outputs: Seq<Addressed<E>>)
    ensures
        m.routed(outputs).0.flows == m.flows,
        m.routed(outputs).0.window == m.window,
    decreases outputs.len(),
{
    if outputs.len() > 0 {
        lemma_routed_flows(m, outputs.drop_last());
    }
}

/// Routing an event puts it behind its session's outbox, where a client that
/// was not connected finds it when it comes back.
pub proof fn law_events_for_absent_sessions_are_kept<E: Encode>(
    m: EdgeModel,
    output: Addressed<E>,
)
    requires
        m.capacity > 0,
    ensures
        ({
            let (now, _) = m.routed(seq![output]);
            let seq = m.session(output.session).next_event_seq;
            let outbox = now.session(output.session).outbox;
            &&& outbox.len() > 0
            &&& outbox.last() == (seq, event_bytes(seq, output.event))
        }),
{
    let one = seq![output];
    assert(one.drop_last() =~= Seq::empty());
    assert(m.routed(one.drop_last()) == (m, Seq::<Sent>::empty()));
}

/// An event that is routed to a session is sent once to its command connection
/// and once to each of its observers, the `i`-th of these to the `i`-th
/// observer, as the same bytes; nobody else is sent anything.
pub proof fn law_every_observer_is_sent_the_event<E: Encode>(
    m: EdgeModel,
    output: Addressed<E>,
    i: int,
)
    ensures
        ({
            let sinks = m.session(output.session);
            let list = m.routed(seq![output]).1;
            let bytes = framed(
                (ServerMsg::Event {
                    event_seq: sinks.next_event_seq,
                    event: output.event,
                }).bytes(),
            );
            let lead: int = if sinks.cmd is Some {
                1
            } else {
                0
            };
            &&& list.len() == lead + sinks.watchers.len()
            &&& sinks.cmd matches Some(conn) ==> list[0].conn == conn && list[0].session
                == output.session && list[0].bytes == bytes
            &&& 0 <= i < sinks.watchers.len() ==> list[lead + i].conn == sinks.watchers[i]
                && list[lead + i].session == output.session && list[lead + i].bytes == bytes
        }),
{
    let one = seq![output];
    assert(one.drop_last() =~= Seq::empty());
    assert(m.routed(one.drop_last()) == (m, Seq::<Sent>::empty()));
}

/// Routing events one after the other sends what each of them sends, in order:
/// what was sent for the first ones stays in front.
pub proof fn law_routing_keeps_the_order<E: Encode>(
    m: EdgeModel,
    outputs: Seq<Addressed<E>>,
    last: Addressed<E>,
)
    ensures
        ({
            let (mid, front) = m.routed(outputs);
            let (end, list) = m.routed(outputs.push(last));
            &&& list == front + mid.routed(seq![last]).1
            &&& end == mid.routed(seq![last]).0
        }),
{
    let (mid, front) = m.routed(outputs);
    let one = seq![last];
    assert(outputs.push(last).drop_last() =~= outputs);
    assert(one.drop_last() =~= Seq::empty());
    assert(mid.routed(one.drop_last()) == (mid, Seq::<Sent>::empty()));
    lemma_routed_capacity(m, outputs);
    assert(m.routed(outputs.push(last)).1 =~= front + mid.routed(one).1);
}

proof fn lemma_routed_capacity<E: Encode>(m: EdgeModel, outputs: Seq<Addressed<E>>)
    ensures
        m.routed(outputs).0.capacity == m.capacity,
    decreases outputs.len(),
{
    if outputs.len() > 0 {
        lemma_routed_capacity(m, outputs.drop_last());
    }
}

/// Routing an event to one session leaves every other session as it was, and
/// gives the event the session's next seq; the seqs of a session go up by one
/// from event to event.
pub proof fn law_routing_touches_one_session<E: Encode>(
    m: EdgeModel,
    output: Addressed<E>,
    other: u64,
)
    ensures
        ({
            let now = m.routed(seq![output]).0;
            let was = m.session(output.session);
            let sinks = now.session(output.session);
            &&& other != output.session ==> now.session(other) == m.session(other)
            &&& now.flow(other) == m.flow(other)
            &&& sinks.cmd == was.cmd
            &&& sinks.watchers == was.watchers
            &&& was.next_event_seq < u64::MAX ==> sinks.next_event_seq == was.next_event_seq + 1
            &&& sinks.outbox.len() <= was.outbox.len() + 1
            &&& sinks.outbox.len() == was.outbox.len() + 1 || sinks.outbox.len() == m.capacity
        }),
{
    let one = seq![output];
    assert(one.drop_last() =~= Seq::empty());
    assert(m.routed(one.drop_last()) == (m, Seq::<Sent>::empty()));
}

/// Event seqs of an outbox run without a gap up to the one assigned next, so a
/// client can tell from them whether it missed anything.
pub open spec fn outbox_numbered(s: SinksModel) -> bool {
    forall|i: int|
        0 <= i < s.outbox.len() ==> (#[trigger] s.outbox[i]).0 == s.next_event_seq
            - s.outbox.len() + i
}

/// Taking an event in keeps the outbox numbered without a gap.
pub proof fn law_outbox_stays_numbered<E: Encode>(s: SinksModel, event: E, capacity: nat)
    requires
        outbox_numbered(s),
        s.next_event_seq < u64::MAX,
    ensures
        outbox_numbered(s.taking(event, capacity)),
{
    let full = s.outbox.push((s.next_event_seq, event_bytes(s.next_event_seq, event)));
    let now = s.taking(event, capacity);
    assert forall|i: int| 0 <= i < now.outbox.len() implies (#[trigger] now.outbox[i]).0
        == now.next_event_seq - now.outbox.len() + i by {
        let k = full.len() - now.outbox.len() + i;
        assert(now.outbox[i] == full[k]);
        if k < s.outbox.len() {
            assert(full[k] == s.outbox[k]);
        }
    }
}

/// A client that reconnects within the outbox's reach gets exactly the events
/// behind the last one it saw.
pub proof fn law_backfill_is_exact(outbox: Seq<(u64, Seq<u8>)>, first: u64, from: u64)
    requires
        forall|i: int| 0 <= i < outbox.len() ==> (#[trigger] outbox[i]).0 == first + i,
        first <= from + 1 <= first + outbox.len(),
    ensures
        held_after(outbox, from) == outbox.skip(from + 1 - first).map_values(
            |e: (u64, Seq<u8>)| e.1,
        ),
    decreases outbox.len(),
{
    let k = from + 1 - first;
    if outbox.len() > 0 {
        let front = outbox.drop_last();
        assert forall|i: int| 0 <= i < front.len() implies (#[trigger] front[i]).0 == first + i by {
            assert(front[i] == outbox[i]);
        }
        let n = outbox.len() as int;
        assert(outbox[n - 1].0 == first + n - 1);
        if k < n {
            law_backfill_is_exact(front, first, from);
            assert(outbox.skip(k).map_values(|e: (u64, Seq<u8>)| e.1) =~= front.skip(
                k,
            ).map_values(|e: (u64, Seq<u8>)| e.1).push(outbox.last().1));
        } else {
            lemma_nothing_after(outbox, from);
            assert(outbox.skip(k).map_values(|e: (u64, Seq<u8>)| e.1) =~= Seq::empty());
        }
    } else {
        assert(outbox.skip(k).map_values(|e: (u64, Seq<u8>)| e.1) =~= Seq::empty());
    }
}

/// A session with events taken in, one after the other.
pub open spec fn taking_all<E: Encode>(
    s: SinksModel,
    events: Seq<E>,
    capacity: nat,
) -> SinksModel
    decreases events.len(),
{
    if events.len() == 0 {
        s
    } else {
        taking_all(s, events.drop_last(), capacity).taking(events.last(), capacity)
    }
}

/// What the outbox of a session holds over a run: the last events, each under
/// its number.
proof fn lemma_outbox_over_a_run<E: Encode>(events: Seq<E>, capacity: nat)
    requires
        events.len() < u64::MAX,
    ensures
        ({
            let now = taking_all(fresh_sinks(), events, capacity);
            let n = events.len();
            let len = now.outbox.len();
            &&& now.next_event_seq == n + 1
            &&& len == if n < capacity {
                n
            } else {
                capacity
            }
            &&& forall|i: int|
                0 <= i < len ==> #[trigger] now.outbox[i] == (
                    (n - len + i + 1) as u64,
                    event_bytes((n - len + i + 1) as u64, events[n - len + i]),
                )
        }),
    decreases events.len(),
{
    if events.len() > 0 {
        let front = events.drop_last();
        lemma_outbox_over_a_run(front, capacity);
        let was = taking_all(fresh_sinks(), front, capacity);
        let now = taking_all(fresh_sinks(), events, capacity);
        let n = events.len();
        let len = now.outbox.len();
        let full = was.outbox.push(
            (was.next_event_seq, event_bytes(was.next_event_seq, events.last())),
        );
        assert forall|i: int| 0 <= i < len implies #[trigger] now.outbox[i] == (
            (n - len + i + 1) as u64,
            event_bytes((n - len + i + 1) as u64, events[n - len + i]),
        ) by {
            let k = full.len() - len + i;
            assert(now.outbox[i] == full[k]);
            if k < was.outbox.len() {
                assert(full[k] == was.outbox[k]);
                assert(front[n - len + i] == events[n - len + i]);
            }
        }
    }
}

/// A session over a run: a client that saw the first `seen` events and comes
/// back while the rest are held gets exactly the rest, in order and numbered
/// on from where it was, however often it was away.
pub proof fn law_session_misses_nothing<E: Encode>(events: Seq<E>, capacity: nat, seen: nat)
    requires
        events.len() < u64::MAX,
        seen <= events.len() <= seen + capacity,
    ensures
        held_after(taking_all(fresh_sinks(), events, capacity).outbox, seen as u64) == Seq::new(
            (events.len() - seen) as nat,
            |i: int| event_bytes((seen + i + 1) as u64, events[seen + i]),
        ),
{
    let outbox = taking_all(fresh_sinks(), events, capacity).outbox;
    lemma_outbox_over_a_run(events, capacity);
    let first = events.len() - outbox.len() + 1;
    law_backfill_is_exact(outbox, first as u64, seen as u64);
    let k = seen + 1 - first;
    assert forall|i: int| 0 <= i < events.len() - seen implies outbox.skip(k)[i] == (
        (seen + i + 1) as u64,
        event_bytes((seen + i + 1) as u64, events[seen + i]),
    ) by {
        assert(outbox.skip(k)[i] == outbox[k + i]);
    }
    assert(held_after(outbox, seen as u64) =~= Seq::new(
        (events.len() - seen) as nat,
        |i: int| event_bytes((seen + i + 1) as u64, events[seen + i]),
    ));
}

proof fn lemma_nothing_after(outbox: Seq<(u64, Seq<u8>)>, from: u64)
    requires
        forall|i: int| 0 <= i < outbox.len() ==> (#[trigger] outbox[i]).0 <= from,
    ensures
        held_after(outbox, from) == Seq::<Seq<u8>>::empty(),
    decreases outbox.len(),
{
    if outbox.len() > 0 {
        assert(outbox[outbox.len() - 1].0 <= from);
        assert forall|i: int| 0 <= i < outbox.drop_last().len() implies (
        #[trigger] outbox.drop_last()[i]).0 <= from by {
            assert(outbox.drop_last()[i] == outbox[i]);
        }
        lemma_nothing_after(outbox.drop_last(), from);
    }
}

/// A session's connections and outbox.
struct SessionSinks {
    cmd: Option<u64>,
    watchers: Vec<u64>,
    next_event_seq: u64,
    outbox: VecDeque<(u64, Vec<u8>)>,
}

spec fn outbox_model(outbox: Seq<(u64, Vec<u8>)>) -> Seq<(u64, Seq<u8>)> {
    outbox.map_values(|e: (u64, Vec<u8>)| (e.0, e.1@))
}

impl SessionSinks {
    spec fn model(&self) -> SinksModel {
        SinksModel {
            cmd: self.cmd,
            watchers: self.watchers@,
            next_event_seq: self.next_event_seq,
            outbox: outbox_model(self.outbox@),
        }
    }

    fn new() -> (r: Self)
        ensures
            r.model() == fresh_sinks(),
    {
        let outbox: VecDeque<(u64, Vec<u8>)> = VecDeque::new();
        assert(outbox_model(outbox@) =~= Seq::empty());
        let watchers: Vec<u64> = Vec::new();
        assert(watchers@ =~= Seq::empty());
        SessionSinks { cmd: None, watchers, next_event_seq: 1, outbox }
    }

    /// Every event behind `from` still held, in order, for one connection.
    fn replay_after(&self, from: u64, session: u64, conn: u64) -> (r: Vec<Outgoing>)
        ensures
            sent(r@) == all_to(session, conn, held_after(self.model().outbox, from)),
    {
        let ghost all = self.model().outbox;
        let mut out: Vec<Outgoing> = Vec::new();
        let n: usize = self.outbox.len();
        let mut i: usize = 0;
        assert(all.take(0) =~= Seq::empty());
        assert(sent(out@) =~= all_to(session, conn, held_after(all.take(0), from)));
        while i < n
            invariant
                i <= n == self.outbox@.len(),
                all == outbox_model(self.outbox@),
                sent(out@) == all_to(session, conn, held_after(all.take(i as int), from)),
            decreases n - i,
        {
            proof {
                assert(all.take(i + 1).drop_last() =~= all.take(i as int));
                assert(all.take(i + 1).last() == all[i as int]);
            }
            let ghost before = out@;
            let ghost front = held_after(all.take(i as int), from);
            if self.outbox[i].0 > from {
                let bytes = crate::paths::copy_bytes(self.outbox[i].1.as_slice());
                out.push(Outgoing { session, conn, bytes });
                assert(sent(out@) =~= sent(before).push(
                    Sent { session, conn, bytes: all[i as int].1 },
                ));
                assert(all_to(session, conn, front.push(all[i as int].1)) =~= all_to(
                    session,
                    conn,
                    front,
                ).push(Sent { session, conn, bytes: all[i as int].1 }));
            }
            i = i + 1;
        }
        assert(all.take(n as int) =~= all);
        out
    }
}

impl SessionSinks {
    /// A message for the command connection, then for every observer.
    fn fan_out(&self, session: u64, bytes: &[u8]) -> (r: Vec<Outgoing>)
        ensures
            sent(r@) == (match self.model().cmd {
                Some(conn) => seq![Sent { session, conn, bytes: bytes@ }],
                None => Seq::empty(),
            }) + to_each(session, self.model().watchers, bytes@),
    {
        let ghost watchers = self.watchers@;
        let mut out: Vec<Outgoing> = Vec::new();
        assert(sent(out@) =~= Seq::empty());
        if let Some(conn) = self.cmd {
            out.push(Outgoing { session, conn, bytes: crate::paths::copy_bytes(bytes) });
            assert(sent(out@) =~= seq![Sent { session, conn, bytes: bytes@ }]);
        }
        let ghost first = sent(out@);
        let n: usize = self.watchers.len();
        let mut i: usize = 0;
        assert(first + to_each(session, watchers.take(0), bytes@) =~= first);
        while i < n
            invariant
                i <= n == self.watchers@.len(),
                watchers == self.watchers@,
                sent(out@) == first + to_each(session, watchers.take(i as int), bytes@),
            decreases n - i,
        {
            let conn: u64 = self.watchers[i];
            let ghost so_far = out@;
            out.push(Outgoing { session, conn, bytes: crate::paths::copy_bytes(bytes) });
            assert(sent(out@) =~= sent(so_far).push(Sent { session, conn, bytes: bytes@ }));
            assert(to_each(session, watchers.take(i + 1), bytes@) =~= to_each(
                session,
                watchers.take(i as int),
                bytes@,
            ).push(Sent { session, conn, bytes: bytes@ }));
            i = i + 1;
        }
        assert(watchers.take(n as int) =~= watchers);
        out
    }

    /// Retains an event for reconnect replay, dropping the oldest past the
    /// capacity.
    fn remember(&mut self, event_seq: u64, bytes: Vec<u8>, capacity: usize)
        ensures
            final(self).model() == (SinksModel {
                outbox: trimmed(
                    old(self).model().outbox.push((event_seq, bytes@)),
                    capacity as nat,
                ),
                ..old(self).model()
            }),
    {
        let ghost before = self.outbox@;
        let ghost full = outbox_model(before).push((event_seq, bytes@));
        let ghost mut dropped: int = 0;
        self.outbox.push_back((event_seq, bytes));
        assert(outbox_model(self.outbox@) =~= full);
        assert(full.skip(0) =~= full);
        while self.outbox.len() > capacity
            invariant
                0 <= dropped,
                dropped + self.outbox@.len() == full.len(),
                outbox_model(self.outbox@) == full.skip(dropped),
                dropped == 0 || self.outbox@.len() >= capacity,
                *self == (SessionSinks { outbox: self.outbox, ..*old(self) }),
            decreases self.outbox@.len(),
        {
            let ghost here = self.outbox@;
            let _gone = self.outbox.pop_front();
            proof {
                assert(self.outbox@ =~= here.skip(1));
                assert(outbox_model(self.outbox@) =~= outbox_model(here).skip(1));
                assert(full.skip(dropped).skip(1) =~= full.skip(dropped + 1));
                dropped = dropped + 1;
            }
        }
        assert(outbox_model(self.outbox@) =~= trimmed(full, capacity as nat));
    }
}

/// All sessions of a gateway.
pub struct Edge {
    flows: BTreeMap<u64, SessionFlow>,
    sinks: BTreeMap<u64, SessionSinks>,
    window: u32,
    capacity: usize,
}

impl View for Edge {
    type V = EdgeModel;

    closed spec fn view(&self) -> EdgeModel {
        EdgeModel {
            flows: self.flows@.map_values(|f: SessionFlow| f@),
            sinks: self.sinks@.map_values(|s: SessionSinks| s.model()),
            window: self.window,
            capacity: self.capacity as nat,
        }
    }
}

/// The flows that resumed sessions start with; of two entries for a session
/// the later counts.
pub open spec fn resumed(list: Seq<(u64, u64)>, window: u32) -> Map<u64, FlowModel>
    decreases list.len(),
{
    if list.len() == 0 {
        Map::empty()
    } else {
        resumed(list.drop_last(), window).insert(
            list.last().0,
            FlowModel {
                next: (list.last().1 + 1) as u64,
                window: if window > 1 {
                    window
                } else {
                    1
                },
                outstanding: 0,
            },
        )
    }
}

impl Edge {
    pub fn new(config: &ServeConfig) -> (r: Self)
        requires
            forall|i: int|
                0 <= i < config.resume@.len() ==> (#[trigger] config.resume@[i]).1 < u64::MAX,
        ensures
            r@ == (EdgeModel {
                flows: resumed(config.resume@, config.window),
                sinks: Map::empty(),
                window: config.window,
                capacity: config.outbox_capacity as nat,
            }),
    {
        let mut flows: BTreeMap<u64, SessionFlow> = BTreeMap::new();
        let ghost list = config.resume@;
        let n: usize = config.resume.len();
        let mut i: usize = 0;
        assert(list.take(0) =~= Seq::empty());
        assert(flows@.map_values(|f: SessionFlow| f@) =~= Map::empty());
        while i < n
            invariant
                i <= n == config.resume@.len(),
                list == config.resume@,
                forall|i: int|
                    0 <= i < config.resume@.len() ==> (#[trigger] config.resume@[i]).1 < u64::MAX,
                flows@.map_values(|f: SessionFlow| f@) == resumed(
                    list.take(i as int),
                    config.window,
                ),
            decreases n - i,
        {
            let (session, last) = config.resume[i];
            assert(list[i as int].1 < u64::MAX);
            let flow = SessionFlow::resume(last, config.window);
            let ghost before = flows@;
            let ghost model = flow@;
            flows.insert(session, flow);
            proof {
                assert(list.take(i + 1).drop_last() =~= list.take(i as int));
                assert(flows@.map_values(|f: SessionFlow| f@) =~= before.map_values(
                    |f: SessionFlow| f@,
                ).insert(session, model));
            }
            i = i + 1;
        }
        assert(list.take(n as int) =~= list);
        let sinks: BTreeMap<u64, SessionSinks> = BTreeMap::new();
        assert(sinks@.map_values(|s: SessionSinks| s.model()) =~= Map::empty());
        Edge { flows, sinks, window: config.window, capacity: config.outbox_capacity }
    }

    /// Takes a session's flow out, to be put back changed.
    fn take_flow(&mut self, session: u64) -> (r: SessionFlow)
        ensures
            r@ == old(self)@.flow(session),
            forall|f: FlowModel| #[trigger]
                final(self)@.with_flow(session, f) == old(self)@.with_flow(session, f),
            final(self)@.sinks == old(self)@.sinks,
            final(self)@.window == old(self)@.window,
            final(self)@.capacity == old(self)@.capacity,
    {
        let ghost before = self@;
        let taken = self.flows.remove(&session);
        proof {
            assert forall|f: FlowModel| #[trigger]
                self@.with_flow(session, f) == before.with_flow(session, f) by {
                assert(self@.flows.insert(session, f) =~= before.flows.insert(session, f));
            }
        }
        match taken {
            Some(f) => f,
            None => SessionFlow::new(self.window),
        }
    }

    fn put_flow(&mut self, session: u64, flow: SessionFlow)
        ensures
            final(self)@ == old(self)@.with_flow(session, flow@),
    {
        let ghost before = self@;
        let ghost model = flow@;
        self.flows.insert(session, flow);
        assert(self@.flows =~= before.flows.insert(session, model));
    }

    /// Takes a session out, to be put back changed.
    fn take_session(&mut self, session: u64) -> (r: SessionSinks)
        ensures
            r.model() == old(self)@.session(session),
            forall|s: SinksModel| #[trigger]
                final(self)@.with_session(session, s) == old(self)@.with_session(session, s),
            final(self)@.flows == old(self)@.flows,
            final(self)@.window == old(self)@.window,
            final(self)@.capacity == old(self)@.capacity,
    {
        let ghost before = self@;
        let taken = self.sinks.remove(&session);
        proof {
            assert forall|s: SinksModel| #[trigger]
                self@.with_session(session, s) == before.with_session(session, s) by {
                assert(self@.sinks.insert(session, s) =~= before.sinks.insert(session, s));
            }
        }
        match taken {
            Some(s) => s,
            None => SessionSinks::new(),
        }
    }

    fn put_session(&mut self, session: u64, sinks: SessionSinks)
        ensures
            final(self)@ == old(self)@.with_session(session, sinks.model()),
    {
        let ghost before = self@;
        let ghost model = sinks.model();
        self.sinks.insert(session, sinks);
        assert(self@.sinks =~= before.sinks.insert(session, model));
    }

    /// A command connection claimed `session`: it gets the events behind
    /// `from_event_seq` that are still held.
    pub fn attach(&mut self, session: u64, from_event_seq: u64, conn: u64) -> (r: Vec<Outgoing>)
        ensures
            final(self)@ == old(self)@.with_flow(session, old(self)@.flow(session)).with_session(
                session,
                SinksModel { cmd: Some(conn), ..old(self)@.session(session) },
            ),
            sent(r@) == all_to(
                session,
                conn,
                held_after(old(self)@.session(session).outbox, from_event_seq),
            ),
    {
        let flow = self.take_flow(session);
        self.put_flow(session, flow);
        let mut entry = self.take_session(session);
        entry.cmd = Some(conn);
        let out = entry.replay_after(from_event_seq, session, conn);
        self.put_session(session, entry);
        out
    }

    /// A drop-copy observer for `session`: it gets an acknowledgement, the
    /// events behind `from_event_seq` that are still held, and every later one.
    pub fn watch<E: Encode>(&mut self, session: u64, from_event_seq: u64, conn: u64) -> (r: Vec<
        Outgoing,
    >)
        ensures
            ({
                let s = old(self)@.session(session);
                let ack = (ServerMsg::<E>::Ack { client_seq: 0, seq: 0 }).bytes();
                &&& final(self)@ == old(self)@.with_session(
                    session,
                    SinksModel { watchers: s.watchers.push(conn), ..s },
                )
                &&& sent(r@) == seq![Sent { session, conn, bytes: framed(ack) }] + all_to(
                    session,
                    conn,
                    held_after(s.outbox, from_event_seq),
                )
            }),
    {
        let msg: ServerMsg<E> = ServerMsg::Ack { client_seq: 0, seq: 0 };
        let mut bytes: Vec<u8> = Vec::new();
        write_msg(&mut bytes, &msg);
        assert(bytes@ =~= framed(msg.bytes()));
        let mut out: Vec<Outgoing> = Vec::new();
        out.push(Outgoing { session, conn, bytes });
        assert(sent(out@) =~= seq![Sent { session, conn, bytes: framed(msg.bytes()) }]);
        let mut entry = self.take_session(session);
        let mut replay = entry.replay_after(from_event_seq, session, conn);
        let ghost first = out@;
        let ghost rest = replay@;
        out.append(&mut replay);
        assert(sent(out@) =~= sent(first) + sent(rest));
        entry.watchers.push(conn);
        self.put_session(session, entry);
        out
    }

    /// The verdict on a command.
    pub fn check(&mut self, session: u64, client_seq: u64) -> (r: Admit)
        ensures
            r == old(self)@.flow(session).verdict(client_seq),
            final(self)@ == old(self)@.with_flow(
                session,
                old(self)@.flow(session).admitted(client_seq),
            ),
    {
        let mut flow = self.take_flow(session);
        let verdict = flow.try_admit(client_seq);
        self.put_flow(session, flow);
        verdict
    }

    /// An admitted command of `session` was sequenced.
    pub fn acked(&mut self, session: u64)
        ensures
            final(self)@ == old(self)@.with_flow(session, old(self)@.flow(session).acked()),
    {
        let mut flow = self.take_flow(session);
        flow.on_acked();
        self.put_flow(session, flow);
    }

    /// Forgets a session's connections and outbox.
    pub fn drop_session(&mut self, session: u64)
        ensures
            final(self)@ == (EdgeModel { sinks: old(self)@.sinks.remove(session), ..old(self)@ }),
    {
        let ghost before = self@;
        self.sinks.remove(&session);
        assert(self@.sinks =~= before.sinks.remove(session));
    }

    /// The command connection of `session` dropped.
    pub fn detach(&mut self, session: u64)
        ensures
            final(self)@ == if old(self)@.sinks.contains_key(session) {
                old(self)@.with_session(
                    session,
                    SinksModel { cmd: None, ..old(self)@.session(session) },
                )
            } else {
                old(self)@
            },
    {
        if self.sinks.contains_key(&session) {
            let mut entry = self.take_session(session);
            entry.cmd = None;
            self.put_session(session, entry);
        }
    }

    /// A connection of `session` is dead: nothing more goes to it.
    pub fn gone(&mut self, session: u64, conn: u64)
        ensures
            final(self)@ == old(self)@.without_conn(session, conn),
    {
        if self.sinks.contains_key(&session) {
            let mut entry = self.take_session(session);
            if let Some(c) = entry.cmd {
                if c == conn {
                    entry.cmd = None;
                }
            }
            let mut left: Vec<u64> = Vec::new();
            let n: usize = entry.watchers.len();
            let mut i: usize = 0;
            assert(entry.watchers@.take(0) =~= Seq::empty());
            while i < n
                invariant
                    i <= n == entry.watchers@.len(),
                    left@ == without(entry.watchers@.take(i as int), conn),
                decreases n - i,
            {
                proof {
                    let w = entry.watchers@;
                    assert(w.take(i + 1).drop_last() =~= w.take(i as int));
                }
                if entry.watchers[i] != conn {
                    left.push(entry.watchers[i]);
                }
                i = i + 1;
            }
            assert(entry.watchers@.take(n as int) =~= entry.watchers@);
            entry.watchers = left;
            self.put_session(session, entry);
        }
    }

    /// A message for the command connection of `session`, if there is one.
    pub fn reply<E: Encode>(&self, session: u64, msg: &ServerMsg<E>) -> (r: Vec<Outgoing>)
        requires
            msg.encodable(),
        ensures
            sent(r@) == self@.reply(session, msg.bytes()),
    {
        let mut out: Vec<Outgoing> = Vec::new();
        assert(sent(out@) =~= Seq::empty());
        if let Some(entry) = self.sinks.get(&session) {
            assert(self@.sinks[session] == entry.model());
            if let Some(conn) = entry.cmd {
                let mut bytes: Vec<u8> = Vec::new();
                write_msg(&mut bytes, msg);
                assert(bytes@ =~= framed(msg.bytes()));
                out.push(Outgoing { session, conn, bytes });
                assert(sent(out@) =~= seq![Sent { session, conn, bytes: framed(msg.bytes()) }]);
            }
        }
        out
    }

    /// Routes one event to its session: it gets its event seq and lands in the
    /// outbox even where nobody is connected.
    fn route_one<E: Encode>(&mut self, session: u64, event: E) -> (r: Vec<Outgoing>)
        requires
            event.encodable(),
        ensures
            final(self)@ == old(self)@.with_session(
                session,
                old(self)@.session(session).taking(event, old(self)@.capacity),
            ),
            sent(r@) == old(self)@.session(session).sends(session, event),
    {
        let ghost s = self@.session(session);
        let ghost capacity = self@.capacity;
        let mut entry = self.take_session(session);
        let event_seq: u64 = entry.next_event_seq;
        entry.next_event_seq = event_seq.saturating_add(1);
        let msg = ServerMsg::Event { event_seq, event };
        let mut bytes: Vec<u8> = Vec::new();
        write_msg(&mut bytes, &msg);
        let ghost wire = event_bytes(s.next_event_seq, event);
        assert(bytes@ =~= wire);
        let out = entry.fan_out(session, bytes.as_slice());
        entry.remember(event_seq, bytes, self.capacity);
        assert(entry.model() == s.taking(event, capacity));
        self.put_session(session, entry);
        out
    }

    /// Routes events to their sessions, in order.
    pub fn route<E: Encode>(&mut self, outputs: Vec<Addressed<E>>) -> (r: Vec<Outgoing>)
        requires
            all_encodable(outputs@),
        ensures
            final(self)@ == old(self)@.routed(outputs@).0,
            sent(r@) == old(self)@.routed(outputs@).1,
    {
        let ghost start = self@;
        let ghost all = outputs@;
        let mut outputs = outputs;
        let n: usize = outputs.len();
        let mut out: Vec<Outgoing> = Vec::new();
        assert(sent(out@) =~= Seq::empty());
        assert(all.take(0) =~= Seq::empty());
        let mut i: usize = 0;
        while i < n
            invariant
                i <= n == all.len(),
                outputs@ == all.skip(i as int),
                all_encodable(all),
                self@ == start.routed(all.take(i as int)).0,
                sent(out@) == start.routed(all.take(i as int)).1,
                self@.capacity == start.capacity,
            decreases n - i,
        {
            proof {
                assert(all.take(i + 1).drop_last() =~= all.take(i as int));
                assert(all.take(i + 1).last() == all[i as int]);
                assert(all[i as int].encodable());
            }
            let item = outputs.remove(0);
            assert(item == all[i as int]);
            assert(outputs@ =~= all.skip(i + 1));
            let ghost so_far = out@;
            let mut more = self.route_one(item.session, item.event);
            let ghost added = more@;
            out.append(&mut more);
            assert(sent(out@) =~= sent(so_far) + sent(added));
            i = i + 1;
        }
        assert(all.take(n as int) =~= all);
        out
    }
}

/// The connections other than `conn`.
pub open spec fn without(conns: Seq<u64>, conn: u64) -> Seq<u64>
    decreases conns.len(),
{
    if conns.len() == 0 {
        Seq::empty()
    } else if conns.last() == conn {
        without(conns.drop_last(), conn)
    } else {
        without(conns.drop_last(), conn).push(conns.last())
    }
}

/// Taking a connection out takes out all of it and nothing else, and keeps the
/// others in order.
pub proof fn law_only_the_connection_leaves(a: Seq<u64>, b: Seq<u64>, conn: u64, other: u64)
    ensures
        !without(a, conn).contains(conn),
        other != conn ==> (without(a, conn).contains(other) <==> a.contains(other)),
        !a.contains(conn) ==> without(a, conn) == a,
        without(a + b, conn) == without(a, conn) + without(b, conn),
    decreases a.len(), b.len(),
{
    if a.len() > 0 {
        let front = a.drop_last();
        let less = without(front, conn);
        law_only_the_connection_leaves(front, Seq::empty(), conn, other);
        assert(a =~= front.push(a.last()));
        assert(a.contains(other) <==> front.contains(other) || a.last() == other) by {
            if a.contains(other) {
                let i = choose|i: int| 0 <= i < a.len() && a[i] == other;
                if i < front.len() {
                    assert(front[i] == other);
                }
            }
            if front.contains(other) {
                let i = choose|i: int| 0 <= i < front.len() && front[i] == other;
                assert(a[i] == other);
            }
            if a.last() == other {
                assert(a[a.len() - 1] == other);
            }
        }
        assert(a.last() != conn ==> (less.push(a.last()).contains(other) <==> less.contains(other)
            || a.last() == other)) by {
            let more = less.push(a.last());
            if more.contains(other) {
                let i = choose|i: int| 0 <= i < more.len() && more[i] == other;
                if i < less.len() {
                    assert(less[i] == other);
                }
            }
            if less.contains(other) {
                let i = choose|i: int| 0 <= i < less.len() && less[i] == other;
                assert(more[i] == other);
            }
            if a.last() == other {
                assert(more[less.len() as int] == other);
            }
        }
        if a.last() != conn && less.push(a.last()).contains(conn) {
            let more = less.push(a.last());
            let i = choose|i: int| 0 <= i < more.len() && more[i] == conn;
            assert(less[i] == conn);
        }
        if !a.contains(conn) {
            assert(a[a.len() - 1] != conn);
            if front.contains(conn) {
                let i = choose|i: int| 0 <= i < front.len() && front[i] == conn;
                assert(a[i] == conn);
            }
        }
    }
    if b.len() == 0 {
        assert(a + b =~= a);
        assert(without(a, conn) + without(b, conn) =~= without(a, conn));
    } else {
        assert((a + b).drop_last() =~= a + b.drop_last());
        law_only_the_connection_leaves(a, b.drop_last(), conn, other);
        assert(without(a + b, conn) =~= without(a, conn) + without(b, conn));
    }
}

/// A dead connection no longer stands for its session and no longer watches it.
/// The session keeps its events and its numbering, and another connection that
/// has taken its place stays; other sessions are not touched.
pub proof fn law_dead_connection_costs_no_event(m: EdgeModel, session: u64, conn: u64, other: u64)
    ensures
        ({
            let now = m.without_conn(session, conn);
            let was = m.session(session);
            let sinks = now.session(session);
            &&& sinks.cmd != Some(conn)
            &&& was.cmd != Some(conn) ==> sinks.cmd == was.cmd
            &&& !sinks.watchers.contains(conn)
            &&& other != conn ==> (sinks.watchers.contains(other) <==> was.watchers.contains(
                other,
            ))
            &&& sinks.outbox == was.outbox
            &&& sinks.next_event_seq == was.next_event_seq
            &&& other != session ==> now.session(other) == m.session(other)
            &&& now.flow(other) == m.flow(other)
            &&& now.flow(session) == m.flow(session)
        }),
{
    law_only_the_connection_leaves(m.session(session).watchers, Seq::empty(), conn, other);
}

/// A reply goes to the session's command connection, once and behind its length;
/// where there is none, nothing is sent.
pub proof fn law_reply_goes_to_the_command_connection(m: EdgeModel, session: u64, bytes: Seq<u8>)
    ensures
        m.session(session).cmd is None ==> m.reply(session, bytes).len() == 0,
        m.session(session).cmd matches Some(conn) ==> {
            let list = m.reply(session, bytes);
            &&& list.len() == 1
            &&& list[0].session == session
            &&& list[0].conn == conn
            &&& list[0].bytes.len() == 4 + bytes.len()
            &&& list[0].bytes.skip(4) == bytes
        },
{
    if m.session(session).cmd is Some {
        crate::gateway::message::law_message_is_framed(bytes);
    }
}

/// Messages for one connection are sent to it, each once, in order.
pub proof fn law_messages_go_out_in_order(session: u64, conn: u64, messages: Seq<Seq<u8>>, i: int)
    ensures
        all_to(session, conn, messages).len() == messages.len(),
        0 <= i < messages.len() ==> {
            &&& all_to(session, conn, messages)[i].session == session
            &&& all_to(session, conn, messages)[i].conn == conn
            &&& all_to(session, conn, messages)[i].bytes == messages[i]
        },
{
}

/// An outbox that is over its capacity loses its oldest events and no others.
pub proof fn law_oldest_events_are_dropped(
    outbox: Seq<(u64, Seq<u8>)>,
    capacity: nat,
    i: int,
)
    ensures
        ({
            let left = trimmed(outbox, capacity);
            &&& left.len() == if outbox.len() < capacity {
                outbox.len()
            } else {
                capacity
            }
            &&& 0 <= i < left.len() ==> left[left.len() - 1 - i] == outbox[outbox.len() - 1 - i]
        }),
{
}

/// A session that was not heard of starts with client seq 1, nothing outstanding
/// and a window of one place at least; of one that is resumed the client seq
/// behind the last acknowledged one is expected, by the later of its entries.
pub proof fn law_sessions_start_where_they_left_off(
    m: EdgeModel,
    list: Seq<(u64, u64)>,
    window: u32,
    k: int,
    session: u64,
)
    ensures
        !m.flows.contains_key(session) ==> {
            &&& m.flow(session).next == 1
            &&& m.flow(session).outstanding == 0
            &&& m.flow(session).window >= 1
            &&& m.window >= 1 ==> m.flow(session).window == m.window
        },
        m.flows.contains_key(session) ==> m.flow(session) == m.flows[session],
        !m.sinks.contains_key(session) ==> {
            &&& m.session(session).cmd is None
            &&& m.session(session).watchers.len() == 0
            &&& m.session(session).outbox.len() == 0
            &&& m.session(session).next_event_seq == 1
        },
        0 <= k < list.len() && list[k].0 == session && list[k].1 < u64::MAX && (forall|j: int|
            k < j < list.len() ==> (#[trigger] list[j]).0 != session) ==> {
            &&& resumed(list, window).contains_key(session)
            &&& resumed(list, window)[session].next == list[k].1 + 1
            &&& resumed(list, window)[session].outstanding == 0
            &&& resumed(list, window)[session].window >= 1
            &&& window >= 1 ==> resumed(list, window)[session].window == window
        },
        (forall|j: int| 0 <= j < list.len() ==> (#[trigger] list[j]).0 != session)
            ==> !resumed(list, window).contains_key(session),
    decreases list.len(),
{
    if list.len() > 0 {
        let front = list.drop_last();
        law_sessions_start_where_they_left_off(m, front, window, k, session);
        assert(list[list.len() - 1] == list.last());
        assert(forall|j: int| 0 <= j < front.len() ==> #[trigger] front[j] == list[j]);
        if k == list.len() - 1 {
        } else if 0 <= k < list.len() && list[k].0 == session && (forall|j: int|
            k < j < list.len() ==> (#[trigger] list[j]).0 != session) {
            assert(list[list.len() - 1].0 != session);
        }
        if forall|j: int| 0 <= j < list.len() ==> (#[trigger] list[j]).0 != session {
            assert(list[list.len() - 1].0 != session);
        }
    }
}

/// What is replayed to a client that saw the events up to `from` is every event
/// behind it that is still held, and none that it saw.
pub proof fn law_seen_events_are_not_replayed(
    a: Seq<(u64, Seq<u8>)>,
    e: (u64, Seq<u8>),
    b: Seq<(u64, Seq<u8>)>,
    from: u64,
)
    ensures
        held_after(Seq::empty(), from) == Seq::<Seq<u8>>::empty(),
        e.0 > from ==> held_after(seq![e], from) == seq![e.1],
        e.0 <= from ==> held_after(seq![e], from) == Seq::<Seq<u8>>::empty(),
        held_after(a + b, from) == held_after(a, from) + held_after(b, from),
    decreases b.len(),
{
    assert(seq![e].drop_last() =~= Seq::empty());
    assert(held_after(seq![e].drop_last(), from) == Seq::<Seq<u8>>::empty());
    assert(e.0 > from ==> held_after(seq![e], from) =~= seq![e.1]);
    if b.len() == 0 {
        assert(a + b =~= a);
        assert(held_after(a, from) + held_after(b, from) =~= held_after(a, from));
    } else {
        assert((a + b).drop_last() =~= a + b.drop_last());
        law_seen_events_are_not_replayed(a, e, b.drop_last(), from);
        assert(held_after(a + b, from) =~= held_after(a, from) + held_after(b, from));
    }
}

/// Routing events leaves connections in place.
pub proof fn lemma_routed_conns<E: Encode>(m: EdgeModel, outputs: Seq<Addressed<E>>, session: u64)
    ensures
        m.routed(outputs).0.session(session).cmd == m.session(session).cmd,
        m.routed(outputs).0.session(session).watchers == m.session(session).watchers,
    decreases outputs.len(),
{
    if outputs.len() > 0 {
        lemma_routed_conns(m, outputs.drop_last(), session);
    }
}

/// What is set for a session is found for it, and for it alone.
pub proof fn law_each_session_has_its_own(
    m: EdgeModel,
    session: u64,
    flow: FlowModel,
    sinks: SinksModel,
    other: u64,
)
    ensures
        m.with_flow(session, flow).flow(session) == flow,
        m.with_session(session, sinks).session(session) == sinks,
        other != session ==> m.with_flow(session, flow).flow(other) == m.flow(other),
        other != session ==> m.with_session(session, sinks).session(other) == m.session(other),
        m.with_flow(session, flow).session(other) == m.session(other),
        m.with_session(session, sinks).flow(other) == m.flow(other),
        m.with_flow(session, flow).capacity == m.capacity,
        m.with_session(session, sinks).capacity == m.capacity,
{
}

} // verus!
