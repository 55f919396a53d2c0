//! The sequencing side of the gateway: what each request from a connection
//! leads to, and what a connection's messages mean.

use vstd::prelude::*;

use crate::codec::{Decode, Encode};
use crate::frame::{FrameKind, MAX_PAYLOAD_LEN};
use crate::gateway::edge::{sent, Edge, EdgeModel, Outgoing, Sent, ServeConfig, SinksModel};
use crate::gateway::flow::Admit;
use crate::gateway::message::{Addressed, ClientMsg, GatewayInput, RejectReason, ServerMsg,
    MAX_MESSAGE_BYTES};
use crate::node::{Node, NodeError, TimeSource};
use crate::service::{encoded, Service};
use crate::storage::Storage;

verus! {

broadcast use crate::le::lemma_le_bytes_len;

/// A request from a connection.
pub enum Req<C> {
    /// A command connection claimed `session`; events behind `from_event_seq`
    /// are replayed.
    Attach { session: u64, from_event_seq: u64, conn: u64 },
    /// A drop-copy observer for `session`.
    Watch { session: u64, from_event_seq: u64, conn: u64 },
    /// A command.
    Cmd { session: u64, client_seq: u64, cmd: C },
    /// The command connection dropped.
    Close { session: u64 },
}

/// What the first message on connection `conn` asks for. A command without a
/// hello in front is a protocol violation.
pub fn greeting<C>(conn: u64, msg: ClientMsg<C>) -> (r: Option<Req<C>>)
    ensures
        r == (match msg {
            ClientMsg::Hello { session, from_event_seq } => Some(
                Req::<C>::Attach { session, from_event_seq, conn },
            ),
            ClientMsg::DropCopy { session, from_event_seq } => Some(
                Req::<C>::Watch { session, from_event_seq, conn },
            ),
            ClientMsg::Cmd { .. } => None,
        }),
{
    match msg {
        ClientMsg::Hello { session, from_event_seq } => Some(
            Req::Attach { session, from_event_seq, conn },
        ),
        ClientMsg::DropCopy { session, from_event_seq } => Some(
            Req::Watch { session, from_event_seq, conn },
        ),
        ClientMsg::Cmd { .. } => None,
    }
}

/// What a later message on a command connection of `session` asks for: a
/// command, or, for anything else, that the session is closed.
pub fn following<C>(session: u64, msg: Option<ClientMsg<C>>) -> (r: Req<C>)
    ensures
        r == (match msg {
            Some(ClientMsg::Cmd { client_seq, cmd }) => Req::Cmd { session, client_seq, cmd },
            _ => Req::<C>::Close { session },
        }),
{
    match msg {
        Some(ClientMsg::Cmd { client_seq, cmd }) => Req::Cmd { session, client_seq, cmd },
        _ => Req::Close { session },
    }
}

/// What a request led to.
pub struct Served {
    /// What is to be sent, in order.
    pub out: Vec<Outgoing>,
    /// Why the node could not sequence the input.
    pub failed: Option<NodeError>,
    /// Whether the connections of the session are to be closed.
    pub dropped: bool,
}

/// The reply to a command that was not accepted.
pub open spec fn rejection(verdict: Admit) -> RejectReason {
    match verdict {
        Admit::Duplicate => RejectReason::Duplicate,
        Admit::Gap { expected } => RejectReason::Gap { expected },
        _ => RejectReason::Throttled,
    }
}

/// A node behind a gateway. The application opts in by shaping its service
/// around the envelopes.
pub struct Gateway<S: Service, T: TimeSource, St: Storage> {
    node: Node<S, T, St>,
    edge: Edge,
}

impl<
    C: Decode,
    E: Encode,
    S: Service<Input = GatewayInput<C>, Output = Addressed<E>>,
    T: TimeSource,
    St: Storage,
> Gateway<S, T, St> {
    pub closed spec fn sequencer(&self) -> Node<S, T, St> {
        self.node
    }

    pub closed spec fn sessions(&self) -> EdgeModel {
        self.edge@
    }

    pub fn new(node: Node<S, T, St>, config: &ServeConfig) -> (r: Self)
        requires
            forall|i: int|
                0 <= i < config.resume@.len() ==> (#[trigger] config.resume@[i]).1 < u64::MAX,
        ensures
            r.sequencer() == node,
            r.sessions().sinks == Map::<u64, SinksModel>::empty(),
            r.sessions().flows == crate::gateway::edge::resumed(config.resume@, config.window),
            r.sessions().window == config.window,
            r.sessions().capacity == config.outbox_capacity,
    {
        Gateway { node, edge: Edge::new(config) }
    }

    /// An input was sequenced: the events went to their sessions, behind the
    /// replies in `first`.
    pub open spec fn sequenced(
        &self,
        before: &Self,
        input: GatewayInput<C>,
        edge: EdgeModel,
        first: Seq<Sent>,
        out: Seq<Sent>,
    ) -> bool {
        exists|now: u64, events: Seq<Addressed<E>>|
            {
                &&& #[trigger] self.sequencer().submitted(
                    &before.sequencer(),
                    input.bytes(),
                    Some(encoded(events)),
                    now,
                )
                &&& self.sequencer().goes_on_from(&before.sequencer())
                &&& self.sequencer().tip() > before.sequencer().tip()
                &&& self.sessions() == edge.routed(events).0
                &&& out == first + (#[trigger] edge.routed(events)).1
            }
    }

    /// Nothing stands in the way of sequencing the input at any time that the
    /// clock may show.
    pub open spec fn goes_through(&self, input: GatewayInput<C>) -> bool {
        forall|now: u64, after: T| #[trigger]
            self.sequencer().clock().reads(after, now) ==> self.sequencer().smooth(
                FrameKind::Input,
                input.bytes(),
                self.sequencer().stamp(now),
            )
    }

    /// What a request leads to: where the node and the sessions stand, what is
    /// sent in order, and whether the node could not sequence the input.
    pub open spec fn served(&self, before: &Self, req: Req<C>, out: Seq<Sent>, failed: bool) -> bool {
        match req {
            Req::Attach { session, from_event_seq, conn } => {
                let m = before.sessions();
                &&& self.sequencer() == before.sequencer()
                &&& !failed
                &&& self.sessions() == m.with_flow(session, m.flow(session)).with_session(
                    session,
                    SinksModel { cmd: Some(conn), ..m.session(session) },
                )
                &&& out == crate::gateway::edge::all_to(
                    session,
                    conn,
                    crate::gateway::edge::held_after(
                        m.session(session).outbox,
                        from_event_seq,
                    ),
                )
            },
            Req::Watch { session, from_event_seq, conn } => {
                let m = before.sessions();
                let ack = (ServerMsg::<E>::Ack { client_seq: 0, seq: 0 }).bytes();
                &&& self.sequencer() == before.sequencer()
                &&& !failed
                &&& self.sessions() == m.with_session(
                    session,
                    SinksModel {
                        watchers: m.session(session).watchers.push(conn),
                        ..m.session(session)
                    },
                )
                &&& out == seq![
                    Sent { session, conn, bytes: crate::gateway::message::framed(ack) },
                ] + crate::gateway::edge::all_to(
                    session,
                    conn,
                    crate::gateway::edge::held_after(
                        m.session(session).outbox,
                        from_event_seq,
                    ),
                )
            },
            Req::Cmd { session, client_seq, cmd } => {
                let m = before.sessions();
                let flow = m.flow(session);
                let verdict = flow.verdict(client_seq);
                let admitted = m.with_flow(session, flow.admitted(client_seq));
                if verdict == Admit::Accept {
                    if !failed {
                        let edge = admitted.with_flow(
                            session,
                            flow.admitted(client_seq).acked(),
                        );
                        let ack = ServerMsg::<E>::Ack {
                            client_seq,
                            seq: (before.sequencer().tip() + 1) as u64,
                        };
                        self.sequenced(
                            before,
                            GatewayInput::Client { session, client_seq, cmd },
                            edge,
                            edge.reply(session, ack.bytes()),
                            out,
                        )
                    } else {
                        &&& before.sequencer().wf() ==> !before.goes_through(
                            GatewayInput::Client { session, client_seq, cmd },
                        )
                        &&& self.sequencer().goes_on_from(&before.sequencer())
                        &&& out.len() == 0
                        &&& self.sessions() == (EdgeModel {
                            sinks: admitted.sinks.remove(session),
                            ..admitted
                        })
                    }
                } else {
                    &&& self.sequencer() == before.sequencer()
                    &&& !failed
                    &&& self.sessions() == admitted
                    &&& out == admitted.reply(
                        session,
                        (ServerMsg::<E>::Rejected {
                            client_seq,
                            reason: rejection(verdict),
                        }).bytes(),
                    )
                }
            },
            Req::Close { session } => {
                let m = before.sessions();
                let edge = if m.sinks.contains_key(session) {
                    m.with_session(
                        session,
                        SinksModel { cmd: None, ..m.session(session) },
                    )
                } else {
                    m
                };
                if !failed {
                    self.sequenced(
                        before,
                        GatewayInput::SessionClosed { session },
                        edge,
                        Seq::empty(),
                        out,
                    )
                } else {
                    &&& before.sequencer().wf() ==> !before.goes_through(
                        GatewayInput::SessionClosed { session },
                    )
                    &&& self.sequencer().goes_on_from(&before.sequencer())
                    &&& out.len() == 0
                    &&& self.sessions() == edge
                }
            },
        }
    }

    /// A run of requests: what each was answered, and whether its input failed.
    pub open spec fn serves(
        run: Seq<Self>,
        reqs: Seq<Req<C>>,
        outs: Seq<Seq<Sent>>,
        failed: Seq<bool>,
    ) -> bool {
        &&& run.len() == reqs.len() + 1
        &&& outs.len() == reqs.len()
        &&& failed.len() == reqs.len()
        &&& forall|i: int|
            0 <= i < reqs.len() ==> (#[trigger] run[i + 1]).served(
                &run[i],
                reqs[i],
                outs[i],
                failed[i],
            )
    }

    /// The `i`-th request is a command of the session, and it is accepted.
    pub open spec fn accepts_at(run: Seq<Self>, reqs: Seq<Req<C>>, session: u64, i: int) -> bool {
        reqs[i] matches Req::Cmd { session: s, client_seq, .. } && s == session
            && run[i].sessions().flow(session).verdict(client_seq) == Admit::Accept
    }

    /// How many of the first `n` requests are commands of the session that are
    /// accepted.
    pub open spec fn accepted(run: Seq<Self>, reqs: Seq<Req<C>>, session: u64, n: nat) -> nat
        decreases n,
    {
        if n == 0 {
            0
        } else {
            Self::accepted(run, reqs, session, (n - 1) as nat) + if Self::accepts_at(
                run,
                reqs,
                session,
                n - 1,
            ) {
                1nat
            } else {
                0nat
            }
        }
    }

    /// None of the first `n` commands of the session failed.
    pub open spec fn unfailed(reqs: Seq<Req<C>>, failed: Seq<bool>, session: u64, n: int) -> bool {
        forall|i: int|
            0 <= i < n ==> (#[trigger] reqs[i] matches Req::Cmd { session: s, .. } && s == session
                ==> !failed[i])
    }

    /// What a session's commands are answered over a run of requests, whatever
    /// other sessions send in between. The next client seq is the first one plus
    /// the commands accepted so far: a lower one is a duplicate, a higher one
    /// leaves a gap, and the very one is accepted as long as no input failed and
    /// the window was open. Each command gets one reply, in front of the events:
    /// an ack with the seq that the input got where it was sequenced, and the
    /// reason where it was refused, which changes nothing else. Acks carry rising
    /// seqs.
    pub proof fn law_replies_to_a_session(
        run: Seq<Self>,
        reqs: Seq<Req<C>>,
        outs: Seq<Seq<Sent>>,
        failed: Seq<bool>,
        session: u64,
        i: int,
        j: int,
    )
        requires
            Self::serves(run, reqs, outs, failed),
            0 <= i < j <= reqs.len(),
        ensures
            reqs[i] matches Req::Cmd { session: s, client_seq, .. } ==> (s == session ==> {
                let m = run[i].sessions();
                let tip = run[i].sequencer().tip();
                let next = run[0].sessions().flow(session).next + Self::accepted(
                    run,
                    reqs,
                    session,
                    i as nat,
                );
                let verdict = m.flow(session).verdict(client_seq);
                let refusal = ServerMsg::<E>::Rejected { client_seq, reason: rejection(verdict) };
                let ack = ServerMsg::<E>::Ack { client_seq, seq: (tip + 1) as u64 };
                &&& verdict == Admit::Duplicate <==> client_seq < next
                &&& verdict == (Admit::Gap { expected: next as u64 }) <==> client_seq > next
                &&& client_seq == next && next < u64::MAX && Self::unfailed(
                    reqs,
                    failed,
                    session,
                    i,
                ) && run[0].sessions().flow(session).outstanding < run[0].sessions().flow(
                    session,
                ).window ==> verdict == Admit::Accept
                &&& verdict != Admit::Accept ==> {
                    &&& !failed[i]
                    &&& outs[i] == m.reply(session, refusal.bytes())
                    &&& run[i + 1].sequencer() == run[i].sequencer()
                    &&& run[i + 1].sessions().sinks == m.sinks
                }
                &&& verdict == Admit::Accept && !failed[i] ==> {
                    &&& outs[i].take(m.reply(session, ack.bytes()).len() as int) == m.reply(
                        session,
                        ack.bytes(),
                    )
                    &&& tip + 1 <= run[j].sequencer().tip()
                }
            }),
    {
        Self::lemma_flow_over(run, reqs, outs, failed, session, i);
        Self::lemma_tips_rise(run, reqs, outs, failed, i + 1, j);
        assert(run[i + 1].served(&run[i], reqs[i], outs[i], failed[i]));
        if let Req::Cmd { session: s, client_seq, cmd } = reqs[i] {
            if s == session && !failed[i] {
                let m = run[i].sessions();
                let flow = m.flow(session);
                if flow.verdict(client_seq) == Admit::Accept {
                    let edge = m.with_flow(session, flow.admitted(client_seq)).with_flow(
                        session,
                        flow.admitted(client_seq).acked(),
                    );
                    let ack = ServerMsg::<E>::Ack {
                        client_seq,
                        seq: (run[i].sequencer().tip() + 1) as u64,
                    };
                    let first = edge.reply(session, ack.bytes());
                    assert(first == m.reply(session, ack.bytes()));
                    let (now, events) = choose|now: u64, events: Seq<Addressed<E>>|
                        {
                            &&& #[trigger] run[i + 1].sequencer().submitted(
                                &run[i].sequencer(),
                                (GatewayInput::Client { session, client_seq, cmd }).bytes(),
                                Some(encoded(events)),
                                now,
                            )
                            &&& run[i + 1].sequencer().goes_on_from(&run[i].sequencer())
                            &&& run[i + 1].sequencer().tip() > run[i].sequencer().tip()
                            &&& run[i + 1].sessions() == edge.routed(events).0
                            &&& outs[i] == first + (#[trigger] edge.routed(events)).1
                        };
                    assert(outs[i].take(first.len() as int) =~= first);
                }
            }
        }
    }

    /// A connection that attaches becomes the session's command connection, and is
    /// sent the events that it has not seen; one that watches is greeted with an
    /// empty ack first, and watches behind the others. Neither sequences anything
    /// or touches another session.
    pub proof fn law_joining_changes_one_session(
        before: Self,
        after: Self,
        session: u64,
        from_event_seq: u64,
        conn: u64,
        out: Seq<Sent>,
        failed: bool,
        other: u64,
    )
        ensures
            after.served(&before, Req::Attach { session, from_event_seq, conn }, out, failed) ==> {
                let was = before.sessions().session(session);
                let now = after.sessions().session(session);
                let missed = crate::gateway::edge::held_after(was.outbox, from_event_seq);
                &&& !failed
                &&& after.sequencer() == before.sequencer()
                &&& now.cmd == Some(conn)
                &&& now.watchers == was.watchers
                &&& now.outbox == was.outbox
                &&& now.next_event_seq == was.next_event_seq
                &&& other != session ==> after.sessions().session(other)
                    == before.sessions().session(other)
                &&& after.sessions().flow(other) == before.sessions().flow(other)
                &&& out.len() == missed.len()
                &&& forall|i: int|
                    0 <= i < out.len() ==> (#[trigger] out[i]).conn == conn && out[i].session
                        == session && out[i].bytes == missed[i]
            },
            after.served(&before, Req::Watch { session, from_event_seq, conn }, out, failed) ==> {
                let was = before.sessions().session(session);
                let now = after.sessions().session(session);
                let missed = crate::gateway::edge::held_after(was.outbox, from_event_seq);
                let ack = ServerMsg::<E>::Ack { client_seq: 0, seq: 0 };
                &&& !failed
                &&& after.sequencer() == before.sequencer()
                &&& now.cmd == was.cmd
                &&& now.watchers == was.watchers + seq![conn]
                &&& now.outbox == was.outbox
                &&& now.next_event_seq == was.next_event_seq
                &&& other != session ==> after.sessions().session(other)
                    == before.sessions().session(other)
                &&& after.sessions().flow(other) == before.sessions().flow(other)
                &&& out.len() == 1 + missed.len()
                &&& out[0].bytes.skip(4) == ack.bytes()
                &&& forall|i: int|
                    0 <= i < out.len() ==> (#[trigger] out[i]).conn == conn && out[i].session
                        == session && (i > 0 ==> out[i].bytes == missed[i - 1])
            },
    {
        let was = before.sessions().session(session);
        assert(was.watchers.push(conn) =~= was.watchers + seq![conn]);
        crate::gateway::message::law_message_is_framed(
            (ServerMsg::<E>::Ack { client_seq: 0, seq: 0 }).bytes(),
        );
    }

    /// A session whose command connection drops is closed by a sequenced input, and
    /// nobody stands for it until a connection attaches anew. Its observers stay, and
    /// where the input fails, so do the events that it holds and its numbering.
    pub proof fn law_closing_keeps_the_session(
        before: Self,
        after: Self,
        session: u64,
        out: Seq<Sent>,
        failed: bool,
        other: u64,
    )
        requires
            after.served(&before, Req::Close { session }, out, failed),
        ensures
            after.sessions().session(session).cmd is None,
            after.sessions().session(session).watchers == before.sessions().session(
                session,
            ).watchers,
            after.sessions().flow(other) == before.sessions().flow(other),
            !failed ==> after.sequencer().tip() > before.sequencer().tip(),
            failed ==> {
                &&& out.len() == 0
                &&& after.sessions().session(session).outbox == before.sessions().session(
                    session,
                ).outbox
                &&& after.sessions().session(session).next_event_seq == before.sessions().session(
                    session,
                ).next_event_seq
            },
    {
        let m = before.sessions();
        let edge = if m.sinks.contains_key(session) {
            m.with_session(session, SinksModel { cmd: None, ..m.session(session) })
        } else {
            m
        };
        if !failed {
            let (now, events) = choose|now: u64, events: Seq<Addressed<E>>|
                {
                    &&& #[trigger] after.sequencer().submitted(
                        &before.sequencer(),
                        (GatewayInput::<C>::SessionClosed { session }).bytes(),
                        Some(encoded(events)),
                        now,
                    )
                    &&& after.sequencer().goes_on_from(&before.sequencer())
                    &&& after.sequencer().tip() > before.sequencer().tip()
                    &&& after.sessions() == edge.routed(events).0
                    &&& out == Seq::<Sent>::empty() + (#[trigger] edge.routed(events)).1
                };
            crate::gateway::edge::lemma_routed_flows(edge, events);
            crate::gateway::edge::lemma_routed_conns(edge, events, session);
        }
    }

    /// A session's admission over a run of requests.
    proof fn lemma_flow_over(
        run: Seq<Self>,
        reqs: Seq<Req<C>>,
        outs: Seq<Seq<Sent>>,
        failed: Seq<bool>,
        session: u64,
        n: int,
    )
        requires
            Self::serves(run, reqs, outs, failed),
            0 <= n <= reqs.len(),
        ensures
            ({
                let first = run[0].sessions().flow(session);
                let flow = run[n].sessions().flow(session);
                &&& flow.next == first.next + Self::accepted(run, reqs, session, n as nat)
                &&& flow.window == first.window
                &&& run[n].sessions().window == run[0].sessions().window
                &&& Self::unfailed(reqs, failed, session, n) ==> flow.outstanding
                    == first.outstanding
            }),
        decreases n,
    {
        if n > 0 {
            let k = n - 1;
            Self::lemma_flow_over(run, reqs, outs, failed, session, k);
            assert(run[k + 1].served(&run[k], reqs[k], outs[k], failed[k]));
            let m = run[k].sessions();
            let now = run[n].sessions();
            if Self::unfailed(reqs, failed, session, n) {
                assert(Self::unfailed(reqs, failed, session, k));
                assert(reqs[k] matches Req::Cmd { session: s, .. } && s == session ==> !failed[k]);
            }
            match reqs[k] {
                Req::Cmd { session: s, client_seq, cmd } => {
                    let flow = m.flow(s);
                    if flow.verdict(client_seq) == Admit::Accept && !failed[k] {
                        let edge = m.with_flow(s, flow.admitted(client_seq)).with_flow(
                            s,
                            flow.admitted(client_seq).acked(),
                        );
                        let events = choose|events: Seq<Addressed<E>>|
                            now == (#[trigger] edge.routed(events)).0;
                        crate::gateway::edge::lemma_routed_flows(edge, events);
                    }
                },
                Req::Close { session: s } => {
                    if !failed[k] {
                        let edge = if m.sinks.contains_key(s) {
                            m.with_session(s, SinksModel { cmd: None, ..m.session(s) })
                        } else {
                            m
                        };
                        let events = choose|events: Seq<Addressed<E>>|
                            now == (#[trigger] edge.routed(events)).0;
                        crate::gateway::edge::lemma_routed_flows(edge, events);
                    }
                },
                _ => {},
            }
        }
    }

    /// What was sequenced stays sequenced.
    proof fn lemma_tips_rise(
        run: Seq<Self>,
        reqs: Seq<Req<C>>,
        outs: Seq<Seq<Sent>>,
        failed: Seq<bool>,
        i: int,
        j: int,
    )
        requires
            Self::serves(run, reqs, outs, failed),
            0 <= i <= j <= reqs.len(),
        ensures
            run[i].sequencer().tip() <= run[j].sequencer().tip(),
        decreases j - i,
    {
        if i < j {
            Self::lemma_tips_rise(run, reqs, outs, failed, i, j - 1);
            reveal(crate::node::streamed);
            reveal(crate::node::run_of);
            assert(run[j - 1 + 1].served(&run[j - 1], reqs[j - 1], outs[j - 1], failed[j - 1]));
        }
    }

    /// Serves one request.
    pub fn on_request(&mut self, req: Req<C>) -> (r: Served)
        requires
            req matches Req::Cmd { cmd, .. } ==> cmd.encodable() && cmd.bytes().len()
                <= MAX_MESSAGE_BYTES,
        ensures
            r.dropped == (req is Cmd && r.failed is Some),
            final(self).served(old(self), req, sent(r.out@), r.failed is Some),
    {
        let none: Vec<Outgoing> = Vec::new();
        assert(sent(none@) =~= Seq::empty());
        match req {
            Req::Attach { session, from_event_seq, conn } => {
                let out = self.edge.attach(session, from_event_seq, conn);
                Served { out, failed: None, dropped: false }
            },
            Req::Watch { session, from_event_seq, conn } => {
                let out = self.edge.watch::<E>(session, from_event_seq, conn);
                Served { out, failed: None, dropped: false }
            },
            Req::Cmd { session, client_seq, cmd } => {
                let ghost m = self.edge@;
                let ghost flow = m.flow(session);
                let verdict = self.edge.check(session, client_seq);
                let ghost admitted = m.with_flow(session, flow.admitted(client_seq));
                match verdict {
                    Admit::Accept => {
                        let input = GatewayInput::Client { session, client_seq, cmd };
                        assert(input.bytes().len() <= MAX_PAYLOAD_LEN);
                        match self.node.submit(&input) {
                            Ok((seq, events)) => {
                                self.edge.acked(session);
                                let ghost edge = self.edge@;
                                assert(edge =~= admitted.with_flow(
                                    session,
                                    flow.admitted(client_seq).acked(),
                                ));
                                let ack: ServerMsg<E> = ServerMsg::Ack {
                                    client_seq,
                                    seq: seq.as_u64(),
                                };
                                let mut out = self.edge.reply(session, &ack);
                                let ghost first = out@;
                                let ghost list = events@;
                                let mut more = self.edge.route(events);
                                let ghost rest = more@;
                                out.append(&mut more);
                                proof {
                                    assert(sent(out@) =~= sent(first) + sent(rest));
                                    let now = choose|now: u64| #[trigger]
                                        self.node.submitted(
                                            &old(self).node,
                                            input.bytes(),
                                            Some(encoded(list)),
                                            now,
                                        );
                                    assert(self.sequencer().submitted(
                                        &old(self).sequencer(),
                                        input.bytes(),
                                        Some(encoded(list)),
                                        now,
                                    ));
                                }
                                Served { out, failed: None, dropped: false }
                            },
                            Err(e) => {
                                assert(old(self).sequencer().wf() ==> !old(self).goes_through(
                                    input,
                                ));
                                self.edge.drop_session(session);
                                Served { out: none, failed: Some(e), dropped: true }
                            },
                        }
                    },
                    Admit::Duplicate => {
                        let msg: ServerMsg<E> = ServerMsg::Rejected {
                            client_seq,
                            reason: RejectReason::Duplicate,
                        };
                        let out = self.edge.reply(session, &msg);
                        Served { out, failed: None, dropped: false }
                    },
                    Admit::Gap { expected } => {
                        let msg: ServerMsg<E> = ServerMsg::Rejected {
                            client_seq,
                            reason: RejectReason::Gap { expected },
                        };
                        let out = self.edge.reply(session, &msg);
                        Served { out, failed: None, dropped: false }
                    },
                    Admit::Throttled => {
                        let msg: ServerMsg<E> = ServerMsg::Rejected {
                            client_seq,
                            reason: RejectReason::Throttled,
                        };
                        let out = self.edge.reply(session, &msg);
                        Served { out, failed: None, dropped: false }
                    },
                }
            },
            Req::Close { session } => {
                self.edge.detach(session);
                let input: GatewayInput<C> = GatewayInput::SessionClosed { session };
                let ghost edge = self.edge@;
                assert(input.bytes().len() <= MAX_PAYLOAD_LEN);
                match self.node.submit(&input) {
                    Ok((_, events)) => {
                        let ghost list = events@;
                        let out = self.edge.route(events);
                        proof {
                            assert(Seq::<Sent>::empty() + edge.routed(list).1 =~= edge.routed(
                                list,
                            ).1);
                            let now = choose|now: u64| #[trigger]
                                self.node.submitted(
                                    &old(self).node,
                                    input.bytes(),
                                    Some(encoded(list)),
                                    now,
                                );
                            assert(self.sequencer().submitted(
                                &old(self).sequencer(),
                                input.bytes(),
                                Some(encoded(list)),
                                now,
                            ));
                        }
                        Served { out, failed: None, dropped: false }
                    },
                    Err(e) => {
                        assert(old(self).sequencer().wf() ==> !old(self).goes_through(input));
                        Served { out: none, failed: Some(e), dropped: false }
                    },
                }
            },
        }
    }

    /// A connection of `session` turned out to be dead.
    pub fn gone(&mut self, session: u64, conn: u64)
        ensures
            final(self).sequencer() == old(self).sequencer(),
            final(self).sessions() == old(self).sessions().without_conn(session, conn),
    {
        self.edge.gone(session, conn);
    }
}

/// A command that was not accepted is told why: that it came before, what was
/// expected in its place, or that the window is full.
pub proof fn law_refusal_tells_the_reason(expected: u64)
    ensures
        rejection(Admit::Duplicate) == RejectReason::Duplicate,
        rejection(Admit::Gap { expected }) == (RejectReason::Gap { expected }),
        rejection(Admit::Throttled) == RejectReason::Throttled,
{
}

} // verus!
