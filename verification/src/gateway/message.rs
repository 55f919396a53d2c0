//! Gateway envelopes and the client/server message protocol.
//!
//! [`GatewayInput`] and [`Addressed`] are the sequenced types: they go through
//! the journal, so session identity and client seqs are part of deterministic
//! history. [`ClientMsg`] and [`ServerMsg`] are the edge protocol, behind a
//! length prefix on a stream.

use vstd::prelude::*;

use crate::codec::cut::lemma_cut_variant;
use crate::codec::tagged::{decode_body, lemma_tagged_bounded, lemma_tagged_canonical,
    lemma_tagged_roundtrip, lemma_tags_differ, parse_tag, parse_tagged, tagged_bytes, unknown_tag};
use crate::codec::{decode_all, parse_all, CodecError, Decode, Encode, Parsed};
use crate::frame::field;
use crate::le::{get_le, put_le};

verus! {

broadcast use crate::le::lemma_le_bytes_len;

/// What the gateway injects into the sequencer on behalf of clients.
#[derive(Debug, Clone, PartialEq, Eq)]
pub enum GatewayInput<C> {
    /// An admitted client command, tagged with its session and the client's
    /// own sequence number.
    Client { session: u64, client_seq: u64, cmd: C },
    /// The session's connection dropped: the service reacts
    /// deterministically.
    SessionClosed { session: u64 },
}

impl<C: Encode> Encode for GatewayInput<C> {
    open spec fn encodable(&self) -> bool {
        match self {
            GatewayInput::Client { session, client_seq, cmd } => {
                (*session, *client_seq, *cmd).encodable()
            },
            GatewayInput::SessionClosed { session } => (*session,).encodable(),
        }
    }

    open spec fn bytes(&self) -> Seq<u8> {
        match self {
            GatewayInput::Client { session, client_seq, cmd } => {
                tagged_bytes(0u16, (*session, *client_seq, *cmd))
            },
            GatewayInput::SessionClosed { session } => tagged_bytes(1u16, (*session,)),
        }
    }

    fn encode(&self, out: &mut Vec<u8>) {
        let ghost start = out@;
        match self {
            GatewayInput::Client { session, client_seq, cmd } => {
                (0u16).encode(out);
                session.encode(out);
                client_seq.encode(out);
                cmd.encode(out);
            },
            GatewayInput::SessionClosed { session } => {
                (1u16).encode(out);
                session.encode(out);
            },
        }
        assert(out@ =~= start + self.bytes());
    }

    fn encoded_len(&self) -> (n: usize) {
        match self {
            GatewayInput::Client { session, client_seq, cmd } => {
                2 + session.encoded_len() + client_seq.encoded_len() + cmd.encoded_len()
            },
            GatewayInput::SessionClosed { session } => 2 + session.encoded_len(),
        }
    }
}

impl<C: Decode> Decode for GatewayInput<C> {
    open spec fn parse(buf: Seq<u8>) -> Parsed {
        match parse_tag(buf) {
            Err(e) => Err(e),
            Ok(tag) => if tag == 0 {
                parse_tagged::<(u64, u64, C)>(buf)
            } else if tag == 1 {
                parse_tagged::<(u64,)>(buf)
            } else {
                unknown_tag()
            },
        }
    }

    open spec fn same(&self, other: &Self) -> bool {
        match (self, other) {
            (
                GatewayInput::Client { session, client_seq, cmd },
                GatewayInput::Client { session: session2, client_seq: client_seq2, cmd: cmd2 },
            ) => (*session, *client_seq, *cmd).same(&(*session2, *client_seq2, *cmd2)),
            (
                GatewayInput::SessionClosed { session },
                GatewayInput::SessionClosed { session: session2 },
            ) => (*session,).same(&(*session2,)),
            _ => false,
        }
    }

    fn decode(buf: &mut &[u8]) -> (r: Result<Self, CodecError>) {
        let ghost start = buf@;
        proof {
            u16::law_parse_is_bounded(start);
        }
        let tag: u16 = u16::decode(buf)?;
        proof {
            crate::le::lemma_pow256_values();
            crate::le::law_le_value_of_bytes(tag as nat, 2);
        }
        if tag == 0 {
            let (session, client_seq, cmd) = decode_body::<(u64, u64, C)>(buf, Ghost(start))?;
            Ok(GatewayInput::Client { session, client_seq, cmd })
        } else if tag == 1 {
            let (session,) = decode_body::<(u64,)>(buf, Ghost(start))?;
            Ok(GatewayInput::SessionClosed { session })
        } else {
            Err(CodecError::InvalidValue("enum discriminant"))
        }
    }

    proof fn law_parse_is_bounded(buf: Seq<u8>) {
        lemma_tagged_bounded::<(u64, u64, C)>(buf);
        lemma_tagged_bounded::<(u64,)>(buf);
    }

    proof fn law_roundtrip(&self, rest: Seq<u8>) {
        match self {
            GatewayInput::Client { session, client_seq, cmd } => {
                lemma_tagged_roundtrip(0u16, (*session, *client_seq, *cmd), rest);
            },
            GatewayInput::SessionClosed { session } => {
                lemma_tagged_roundtrip(1u16, (*session,), rest);
            },
        }
    }

    proof fn law_cut_ends_early(&self, cut: Seq<u8>) {
        match self {
            GatewayInput::Client { session, client_seq, cmd } => {
                lemma_cut_variant(0u16, (*session, *client_seq, *cmd), cut.len() as int);
            },
            GatewayInput::SessionClosed { session } => {
                lemma_cut_variant(1u16, (*session,), cut.len() as int);
            },
        }
    }

    proof fn law_canonical(&self, other: &Self) {
        match (self, other) {
            (
                GatewayInput::Client { session, client_seq, cmd },
                GatewayInput::Client { session: session2, client_seq: client_seq2, cmd: cmd2 },
            ) => {
                lemma_tagged_canonical(
                    0u16,
                    (*session, *client_seq, *cmd),
                    (*session2, *client_seq2, *cmd2),
                );
            },
            (
                GatewayInput::SessionClosed { session },
                GatewayInput::SessionClosed { session: session2 },
            ) => {
                lemma_tagged_canonical(1u16, (*session,), (*session2,));
            },
            (
                GatewayInput::Client { session, client_seq, cmd },
                GatewayInput::SessionClosed { session: session2 },
            ) => {
                lemma_tags_differ(
                    0u16,
                    1u16,
                    (*session, *client_seq, *cmd).bytes(),
                    (*session2,).bytes(),
                );
            },
            (
                GatewayInput::SessionClosed { session },
                GatewayInput::Client { session: session2, client_seq: client_seq2, cmd: cmd2 },
            ) => {
                lemma_tags_differ(
                    1u16,
                    0u16,
                    (*session,).bytes(),
                    (*session2, *client_seq2, *cmd2).bytes(),
                );
            },
        }
    }
}

/// Why the gateway refused a command (edge protocol, not sequenced).
#[derive(Debug, Clone, Copy, PartialEq, Eq, Structural)]
pub enum RejectReason {
    /// Retry of an already-admitted seq: the effect happened.
    Duplicate,
    /// Client seq skipped ahead; resynchronize at `expected`.
    Gap { expected: u64 },
    /// Window full; retry the same seq after acks drain.
    Throttled,
}

impl Encode for RejectReason {
    open spec fn encodable(&self) -> bool {
        match self {
            RejectReason::Duplicate => ().encodable(),
            RejectReason::Gap { expected } => (*expected,).encodable(),
            RejectReason::Throttled => ().encodable(),
        }
    }

    open spec fn bytes(&self) -> Seq<u8> {
        match self {
            RejectReason::Duplicate => tagged_bytes(0u16, ()),
            RejectReason::Gap { expected } => tagged_bytes(1u16, (*expected,)),
            RejectReason::Throttled => tagged_bytes(2u16, ()),
        }
    }

    fn encode(&self, out: &mut Vec<u8>) {
        let ghost start = out@;
        match self {
            RejectReason::Duplicate => {
                (0u16).encode(out);
            },
            RejectReason::Gap { expected } => {
                (1u16).encode(out);
                expected.encode(out);
            },
            RejectReason::Throttled => {
                (2u16).encode(out);
            },
        }
        assert(out@ =~= start + self.bytes());
    }

    fn encoded_len(&self) -> (n: usize) {
        match self {
            RejectReason::Duplicate => 2,
            RejectReason::Gap { expected } => 2 + expected.encoded_len(),
            RejectReason::Throttled => 2,
        }
    }
}

impl Decode for RejectReason {
    open spec fn parse(buf: Seq<u8>) -> Parsed {
        match parse_tag(buf) {
            Err(e) => Err(e),
            Ok(tag) => if tag == 0 {
                parse_tagged::<()>(buf)
            } else if tag == 1 {
                parse_tagged::<(u64,)>(buf)
            } else if tag == 2 {
                parse_tagged::<()>(buf)
            } else {
                unknown_tag()
            },
        }
    }

    open spec fn same(&self, other: &Self) -> bool {
        match (self, other) {
            (RejectReason::Duplicate, RejectReason::Duplicate) => ().same(&()),
            (
                RejectReason::Gap { expected },
                RejectReason::Gap { expected: expected2 },
            ) => (*expected,).same(&(*expected2,)),
            (RejectReason::Throttled, RejectReason::Throttled) => ().same(&()),
            _ => false,
        }
    }

    fn decode(buf: &mut &[u8]) -> (r: Result<Self, CodecError>) {
        let ghost start = buf@;
        proof {
            u16::law_parse_is_bounded(start);
        }
        let tag: u16 = u16::decode(buf)?;
        proof {
            crate::le::lemma_pow256_values();
            crate::le::law_le_value_of_bytes(tag as nat, 2);
        }
        if tag == 0 {
            let _body = decode_body::<()>(buf, Ghost(start))?;
            Ok(RejectReason::Duplicate)
        } else if tag == 1 {
            let (expected,) = decode_body::<(u64,)>(buf, Ghost(start))?;
            Ok(RejectReason::Gap { expected })
        } else if tag == 2 {
            let _body = decode_body::<()>(buf, Ghost(start))?;
            Ok(RejectReason::Throttled)
        } else {
            Err(CodecError::InvalidValue("enum discriminant"))
        }
    }

    proof fn law_parse_is_bounded(buf: Seq<u8>) {
        lemma_tagged_bounded::<()>(buf);
        lemma_tagged_bounded::<(u64,)>(buf);
        lemma_tagged_bounded::<()>(buf);
    }

    proof fn law_roundtrip(&self, rest: Seq<u8>) {
        match self {
            RejectReason::Duplicate => {
                lemma_tagged_roundtrip(0u16, (), rest);
            },
            RejectReason::Gap { expected } => {
                lemma_tagged_roundtrip(1u16, (*expected,), rest);
            },
            RejectReason::Throttled => {
                lemma_tagged_roundtrip(2u16, (), rest);
            },
        }
    }

    proof fn law_cut_ends_early(&self, cut: Seq<u8>) {
        match self {
            RejectReason::Duplicate => {
                lemma_cut_variant(0u16, (), cut.len() as int);
            },
            RejectReason::Gap { expected } => {
                lemma_cut_variant(1u16, (*expected,), cut.len() as int);
            },
            RejectReason::Throttled => {
                lemma_cut_variant(2u16, (), cut.len() as int);
            },
        }
    }

    proof fn law_canonical(&self, other: &Self) {
        match (self, other) {
            (RejectReason::Duplicate, RejectReason::Duplicate) => {
                lemma_tagged_canonical(0u16, (), ());
            },
            (RejectReason::Gap { expected }, RejectReason::Gap { expected: expected2 }) => {
                lemma_tagged_canonical(1u16, (*expected,), (*expected2,));
            },
            (RejectReason::Throttled, RejectReason::Throttled) => {
                lemma_tagged_canonical(2u16, (), ());
            },
            (RejectReason::Duplicate, RejectReason::Gap { expected: expected2 }) => {
                lemma_tags_differ(
                    0u16,
                    1u16,
                    ().bytes(),
                    (*expected2,).bytes(),
                );
            },
            (RejectReason::Duplicate, RejectReason::Throttled) => {
                lemma_tags_differ(
                    0u16,
                    2u16,
                    ().bytes(),
                    ().bytes(),
                );
            },
            (RejectReason::Gap { expected }, RejectReason::Duplicate) => {
                lemma_tags_differ(
                    1u16,
                    0u16,
                    (*expected,).bytes(),
                    ().bytes(),
                );
            },
            (RejectReason::Gap { expected }, RejectReason::Throttled) => {
                lemma_tags_differ(
                    1u16,
                    2u16,
                    (*expected,).bytes(),
                    ().bytes(),
                );
            },
            (RejectReason::Throttled, RejectReason::Duplicate) => {
                lemma_tags_differ(
                    2u16,
                    0u16,
                    ().bytes(),
                    ().bytes(),
                );
            },
            (RejectReason::Throttled, RejectReason::Gap { expected: expected2 }) => {
                lemma_tags_differ(
                    2u16,
                    1u16,
                    ().bytes(),
                    (*expected2,).bytes(),
                );
            },
        }
    }
}

/// Client to gateway messages.
#[derive(Debug, Clone, PartialEq, Eq)]
pub enum ClientMsg<C> {
    /// First message on a command connection. `from_event_seq` is the last
    /// event seq the client durably saw; everything after it is replayed.
    Hello { session: u64, from_event_seq: u64 },
    /// First message on an observer connection: receive a copy of every event
    /// addressed to `session`.
    DropCopy { session: u64, from_event_seq: u64 },
    /// A command.
    Cmd { client_seq: u64, cmd: C },
}

impl<C: Encode> Encode for ClientMsg<C> {
    open spec fn encodable(&self) -> bool {
        match self {
            ClientMsg::Hello { session, from_event_seq } => (*session, *from_event_seq).encodable(),
            ClientMsg::DropCopy { session, from_event_seq } => {
                (*session, *from_event_seq).encodable()
            },
            ClientMsg::Cmd { client_seq, cmd } => (*client_seq, *cmd).encodable(),
        }
    }

    open spec fn bytes(&self) -> Seq<u8> {
        match self {
            ClientMsg::Hello { session, from_event_seq } => {
                tagged_bytes(0u16, (*session, *from_event_seq))
            },
            ClientMsg::DropCopy { session, from_event_seq } => {
                tagged_bytes(1u16, (*session, *from_event_seq))
            },
            ClientMsg::Cmd { client_seq, cmd } => tagged_bytes(2u16, (*client_seq, *cmd)),
        }
    }

    fn encode(&self, out: &mut Vec<u8>) {
        let ghost start = out@;
        match self {
            ClientMsg::Hello { session, from_event_seq } => {
                (0u16).encode(out);
                session.encode(out);
                from_event_seq.encode(out);
            },
            ClientMsg::DropCopy { session, from_event_seq } => {
                (1u16).encode(out);
                session.encode(out);
                from_event_seq.encode(out);
            },
            ClientMsg::Cmd { client_seq, cmd } => {
                (2u16).encode(out);
                client_seq.encode(out);
                cmd.encode(out);
            },
        }
        assert(out@ =~= start + self.bytes());
    }

    fn encoded_len(&self) -> (n: usize) {
        match self {
            ClientMsg::Hello { session, from_event_seq } => {
                2 + session.encoded_len() + from_event_seq.encoded_len()
            },
            ClientMsg::DropCopy { session, from_event_seq } => {
                2 + session.encoded_len() + from_event_seq.encoded_len()
            },
            ClientMsg::Cmd { client_seq, cmd } => 2 + client_seq.encoded_len() + cmd.encoded_len(),
        }
    }
}

impl<C: Decode> Decode for ClientMsg<C> {
    open spec fn parse(buf: Seq<u8>) -> Parsed {
        match parse_tag(buf) {
            Err(e) => Err(e),
            Ok(tag) => if tag == 0 {
                parse_tagged::<(u64, u64)>(buf)
            } else if tag == 1 {
                parse_tagged::<(u64, u64)>(buf)
            } else if tag == 2 {
                parse_tagged::<(u64, C)>(buf)
            } else {
                unknown_tag()
            },
        }
    }

    open spec fn same(&self, other: &Self) -> bool {
        match (self, other) {
            (
                ClientMsg::Hello { session, from_event_seq },
                ClientMsg::Hello { session: session2, from_event_seq: from_event_seq2 },
            ) => (*session, *from_event_seq).same(&(*session2, *from_event_seq2)),
            (
                ClientMsg::DropCopy { session, from_event_seq },
                ClientMsg::DropCopy { session: session2, from_event_seq: from_event_seq2 },
            ) => (*session, *from_event_seq).same(&(*session2, *from_event_seq2)),
            (
                ClientMsg::Cmd { client_seq, cmd },
                ClientMsg::Cmd { client_seq: client_seq2, cmd: cmd2 },
            ) => (*client_seq, *cmd).same(&(*client_seq2, *cmd2)),
            _ => false,
        }
    }

    fn decode(buf: &mut &[u8]) -> (r: Result<Self, CodecError>) {
        let ghost start = buf@;
        proof {
            u16::law_parse_is_bounded(start);
        }
        let tag: u16 = u16::decode(buf)?;
        proof {
            crate::le::lemma_pow256_values();
            crate::le::law_le_value_of_bytes(tag as nat, 2);
        }
        if tag == 0 {
            let (session, from_event_seq) = decode_body::<(u64, u64)>(buf, Ghost(start))?;
            Ok(ClientMsg::Hello { session, from_event_seq })
        } else if tag == 1 {
            let (session, from_event_seq) = decode_body::<(u64, u64)>(buf, Ghost(start))?;
            Ok(ClientMsg::DropCopy { session, from_event_seq })
        } else if tag == 2 {
            let (client_seq, cmd) = decode_body::<(u64, C)>(buf, Ghost(start))?;
            Ok(ClientMsg::Cmd { client_seq, cmd })
        } else {
            Err(CodecError::InvalidValue("enum discriminant"))
        }
    }

    proof fn law_parse_is_bounded(buf: Seq<u8>) {
        lemma_tagged_bounded::<(u64, u64)>(buf);
        lemma_tagged_bounded::<(u64, u64)>(buf);
        lemma_tagged_bounded::<(u64, C)>(buf);
    }

    proof fn law_roundtrip(&self, rest: Seq<u8>) {
        match self {
            ClientMsg::Hello { session, from_event_seq } => {
                lemma_tagged_roundtrip(0u16, (*session, *from_event_seq), rest);
            },
            ClientMsg::DropCopy { session, from_event_seq } => {
                lemma_tagged_roundtrip(1u16, (*session, *from_event_seq), rest);
            },
            ClientMsg::Cmd { client_seq, cmd } => {
                lemma_tagged_roundtrip(2u16, (*client_seq, *cmd), rest);
            },
        }
    }

    proof fn law_cut_ends_early(&self, cut: Seq<u8>) {
        match self {
            ClientMsg::Hello { session, from_event_seq } => {
                lemma_cut_variant(0u16, (*session, *from_event_seq), cut.len() as int);
            },
            ClientMsg::DropCopy { session, from_event_seq } => {
                lemma_cut_variant(1u16, (*session, *from_event_seq), cut.len() as int);
            },
            ClientMsg::Cmd { client_seq, cmd } => {
                lemma_cut_variant(2u16, (*client_seq, *cmd), cut.len() as int);
            },
        }
    }

    proof fn law_canonical(&self, other: &Self) {
        match (self, other) {
            (
                ClientMsg::Hello { session, from_event_seq },
                ClientMsg::Hello { session: session2, from_event_seq: from_event_seq2 },
            ) => {
                lemma_tagged_canonical(
                    0u16,
                    (*session, *from_event_seq),
                    (*session2, *from_event_seq2),
                );
            },
            (
                ClientMsg::DropCopy { session, from_event_seq },
                ClientMsg::DropCopy { session: session2, from_event_seq: from_event_seq2 },
            ) => {
                lemma_tagged_canonical(
                    1u16,
                    (*session, *from_event_seq),
                    (*session2, *from_event_seq2),
                );
            },
            (
                ClientMsg::Cmd { client_seq, cmd },
                ClientMsg::Cmd { client_seq: client_seq2, cmd: cmd2 },
            ) => {
                lemma_tagged_canonical(2u16, (*client_seq, *cmd), (*client_seq2, *cmd2));
            },
            (
                ClientMsg::Hello { session, from_event_seq },
                ClientMsg::DropCopy { session: session2, from_event_seq: from_event_seq2 },
            ) => {
                lemma_tags_differ(
                    0u16,
                    1u16,
                    (*session, *from_event_seq).bytes(),
                    (*session2, *from_event_seq2).bytes(),
                );
            },
            (
                ClientMsg::Hello { session, from_event_seq },
                ClientMsg::Cmd { client_seq: client_seq2, cmd: cmd2 },
            ) => {
                lemma_tags_differ(
                    0u16,
                    2u16,
                    (*session, *from_event_seq).bytes(),
                    (*client_seq2, *cmd2).bytes(),
                );
            },
            (
                ClientMsg::DropCopy { session, from_event_seq },
                ClientMsg::Hello { session: session2, from_event_seq: from_event_seq2 },
            ) => {
                lemma_tags_differ(
                    1u16,
                    0u16,
                    (*session, *from_event_seq).bytes(),
                    (*session2, *from_event_seq2).bytes(),
                );
            },
            (
                ClientMsg::DropCopy { session, from_event_seq },
                ClientMsg::Cmd { client_seq: client_seq2, cmd: cmd2 },
            ) => {
                lemma_tags_differ(
                    1u16,
                    2u16,
                    (*session, *from_event_seq).bytes(),
                    (*client_seq2, *cmd2).bytes(),
                );
            },
            (
                ClientMsg::Cmd { client_seq, cmd },
                ClientMsg::Hello { session: session2, from_event_seq: from_event_seq2 },
            ) => {
                lemma_tags_differ(
                    2u16,
                    0u16,
                    (*client_seq, *cmd).bytes(),
                    (*session2, *from_event_seq2).bytes(),
                );
            },
            (
                ClientMsg::Cmd { client_seq, cmd },
                ClientMsg::DropCopy { session: session2, from_event_seq: from_event_seq2 },
            ) => {
                lemma_tags_differ(
                    2u16,
                    1u16,
                    (*client_seq, *cmd).bytes(),
                    (*session2, *from_event_seq2).bytes(),
                );
            },
        }
    }
}

/// Gateway to client messages.
#[derive(Debug, Clone, PartialEq, Eq)]
pub enum ServerMsg<E> {
    /// `client_seq` was sequenced at global `seq`.
    Ack { client_seq: u64, seq: u64 },
    /// An event addressed to this session, with its per-session `event_seq`.
    Event { event_seq: u64, event: E },
    /// The command was refused.
    Rejected { client_seq: u64, reason: RejectReason },
}

impl<E: Encode> Encode for ServerMsg<E> {
    open spec fn encodable(&self) -> bool {
        match self {
            ServerMsg::Ack { client_seq, seq } => (*client_seq, *seq).encodable(),
            ServerMsg::Event { event_seq, event } => (*event_seq, *event).encodable(),
            ServerMsg::Rejected { client_seq, reason } => (*client_seq, *reason).encodable(),
        }
    }

    open spec fn bytes(&self) -> Seq<u8> {
        match self {
            ServerMsg::Ack { client_seq, seq } => tagged_bytes(0u16, (*client_seq, *seq)),
            ServerMsg::Event { event_seq, event } => tagged_bytes(1u16, (*event_seq, *event)),
            ServerMsg::Rejected { client_seq, reason } => {
                tagged_bytes(2u16, (*client_seq, *reason))
            },
        }
    }

    fn encode(&self, out: &mut Vec<u8>) {
        let ghost start = out@;
        match self {
            ServerMsg::Ack { client_seq, seq } => {
                (0u16).encode(out);
                client_seq.encode(out);
                seq.encode(out);
            },
            ServerMsg::Event { event_seq, event } => {
                (1u16).encode(out);
                event_seq.encode(out);
                event.encode(out);
            },
            ServerMsg::Rejected { client_seq, reason } => {
                (2u16).encode(out);
                client_seq.encode(out);
                reason.encode(out);
            },
        }
        assert(out@ =~= start + self.bytes());
    }

    fn encoded_len(&self) -> (n: usize) {
        match self {
            ServerMsg::Ack { client_seq, seq } => 2 + client_seq.encoded_len() + seq.encoded_len(),
            ServerMsg::Event { event_seq, event } => {
                2 + event_seq.encoded_len() + event.encoded_len()
            },
            ServerMsg::Rejected { client_seq, reason } => {
                2 + client_seq.encoded_len() + reason.encoded_len()
            },
        }
    }
}

impl<E: Decode> Decode for ServerMsg<E> {
    open spec fn parse(buf: Seq<u8>) -> Parsed {
        match parse_tag(buf) {
            Err(e) => Err(e),
            Ok(tag) => if tag == 0 {
                parse_tagged::<(u64, u64)>(buf)
            } else if tag == 1 {
                parse_tagged::<(u64, E)>(buf)
            } else if tag == 2 {
                parse_tagged::<(u64, RejectReason)>(buf)
            } else {
                unknown_tag()
            },
        }
    }

    open spec fn same(&self, other: &Self) -> bool {
        match (self, other) {
            (
                ServerMsg::Ack { client_seq, seq },
                ServerMsg::Ack { client_seq: client_seq2, seq: seq2 },
            ) => (*client_seq, *seq).same(&(*client_seq2, *seq2)),
            (
                ServerMsg::Event { event_seq, event },
                ServerMsg::Event { event_seq: event_seq2, event: event2 },
            ) => (*event_seq, *event).same(&(*event_seq2, *event2)),
            (
                ServerMsg::Rejected { client_seq, reason },
                ServerMsg::Rejected { client_seq: client_seq2, reason: reason2 },
            ) => (*client_seq, *reason).same(&(*client_seq2, *reason2)),
            _ => false,
        }
    }

    fn decode(buf: &mut &[u8]) -> (r: Result<Self, CodecError>) {
        let ghost start = buf@;
        proof {
            u16::law_parse_is_bounded(start);
        }
        let tag: u16 = u16::decode(buf)?;
        proof {
            crate::le::lemma_pow256_values();
            crate::le::law_le_value_of_bytes(tag as nat, 2);
        }
        if tag == 0 {
            let (client_seq, seq) = decode_body::<(u64, u64)>(buf, Ghost(start))?;
            Ok(ServerMsg::Ack { client_seq, seq })
        } else if tag == 1 {
            let (event_seq, event) = decode_body::<(u64, E)>(buf, Ghost(start))?;
            Ok(ServerMsg::Event { event_seq, event })
        } else if tag == 2 {
            let (client_seq, reason) = decode_body::<(u64, RejectReason)>(buf, Ghost(start))?;
            Ok(ServerMsg::Rejected { client_seq, reason })
        } else {
            Err(CodecError::InvalidValue("enum discriminant"))
        }
    }

    proof fn law_parse_is_bounded(buf: Seq<u8>) {
        lemma_tagged_bounded::<(u64, u64)>(buf);
        lemma_tagged_bounded::<(u64, E)>(buf);
        lemma_tagged_bounded::<(u64, RejectReason)>(buf);
    }

    proof fn law_roundtrip(&self, rest: Seq<u8>) {
        match self {
            ServerMsg::Ack { client_seq, seq } => {
                lemma_tagged_roundtrip(0u16, (*client_seq, *seq), rest);
            },
            ServerMsg::Event { event_seq, event } => {
                lemma_tagged_roundtrip(1u16, (*event_seq, *event), rest);
            },
            ServerMsg::Rejected { client_seq, reason } => {
                lemma_tagged_roundtrip(2u16, (*client_seq, *reason), rest);
            },
        }
    }

    proof fn law_cut_ends_early(&self, cut: Seq<u8>) {
        match self {
            ServerMsg::Ack { client_seq, seq } => {
                lemma_cut_variant(0u16, (*client_seq, *seq), cut.len() as int);
            },
            ServerMsg::Event { event_seq, event } => {
                lemma_cut_variant(1u16, (*event_seq, *event), cut.len() as int);
            },
            ServerMsg::Rejected { client_seq, reason } => {
                lemma_cut_variant(2u16, (*client_seq, *reason), cut.len() as int);
            },
        }
    }

    proof fn law_canonical(&self, other: &Self) {
        match (self, other) {
            (
                ServerMsg::Ack { client_seq, seq },
                ServerMsg::Ack { client_seq: client_seq2, seq: seq2 },
            ) => {
                lemma_tagged_canonical(0u16, (*client_seq, *seq), (*client_seq2, *seq2));
            },
            (
                ServerMsg::Event { event_seq, event },
                ServerMsg::Event { event_seq: event_seq2, event: event2 },
            ) => {
                lemma_tagged_canonical(1u16, (*event_seq, *event), (*event_seq2, *event2));
            },
            (
                ServerMsg::Rejected { client_seq, reason },
                ServerMsg::Rejected { client_seq: client_seq2, reason: reason2 },
            ) => {
                lemma_tagged_canonical(2u16, (*client_seq, *reason), (*client_seq2, *reason2));
            },
            (
                ServerMsg::Ack { client_seq, seq },
                ServerMsg::Event { event_seq: event_seq2, event: event2 },
            ) => {
                lemma_tags_differ(
                    0u16,
                    1u16,
                    (*client_seq, *seq).bytes(),
                    (*event_seq2, *event2).bytes(),
                );
            },
            (
                ServerMsg::Ack { client_seq, seq },
                ServerMsg::Rejected { client_seq: client_seq2, reason: reason2 },
            ) => {
                lemma_tags_differ(
                    0u16,
                    2u16,
                    (*client_seq, *seq).bytes(),
                    (*client_seq2, *reason2).bytes(),
                );
            },
            (
                ServerMsg::Event { event_seq, event },
                ServerMsg::Ack { client_seq: client_seq2, seq: seq2 },
            ) => {
                lemma_tags_differ(
                    1u16,
                    0u16,
                    (*event_seq, *event).bytes(),
                    (*client_seq2, *seq2).bytes(),
                );
            },
            (
                ServerMsg::Event { event_seq, event },
                ServerMsg::Rejected { client_seq: client_seq2, reason: reason2 },
            ) => {
                lemma_tags_differ(
                    1u16,
                    2u16,
                    (*event_seq, *event).bytes(),
                    (*client_seq2, *reason2).bytes(),
                );
            },
            (
                ServerMsg::Rejected { client_seq, reason },
                ServerMsg::Ack { client_seq: client_seq2, seq: seq2 },
            ) => {
                lemma_tags_differ(
                    2u16,
                    0u16,
                    (*client_seq, *reason).bytes(),
                    (*client_seq2, *seq2).bytes(),
                );
            },
            (
                ServerMsg::Rejected { client_seq, reason },
                ServerMsg::Event { event_seq: event_seq2, event: event2 },
            ) => {
                lemma_tags_differ(
                    2u16,
                    1u16,
                    (*client_seq, *reason).bytes(),
                    (*event_seq2, *event2).bytes(),
                );
            },
        }
    }
}

/// An output event addressed to the session that must see it.
#[derive(Debug, Clone, PartialEq, Eq)]
pub struct Addressed<E> {
    pub session: u64,
    pub event: E,
}

impl<E: Encode> Encode for Addressed<E> {
    open spec fn encodable(&self) -> bool {
        (self.session, self.event).encodable()
    }

    open spec fn bytes(&self) -> Seq<u8> {
        (self.session, self.event).bytes()
    }

    fn encode(&self, out: &mut Vec<u8>) {
        let ghost start = out@;
        self.session.encode(out);
        self.event.encode(out);
        assert(out@ =~= start + self.bytes());
    }

    fn encoded_len(&self) -> (n: usize) {
        8 + self.event.encoded_len()
    }
}

impl<E: Decode> Decode for Addressed<E> {
    open spec fn parse(buf: Seq<u8>) -> Parsed {
        <(u64, E)>::parse(buf)
    }

    open spec fn same(&self, other: &Self) -> bool {
        (self.session, self.event).same(&(other.session, other.event))
    }

    fn decode(buf: &mut &[u8]) -> (r: Result<Self, CodecError>) {
        let (session, event) = <(u64, E)>::decode(buf)?;
        Ok(Addressed { session, event })
    }

    proof fn law_parse_is_bounded(buf: Seq<u8>) {
        <(u64, E)>::law_parse_is_bounded(buf);
    }

    proof fn law_roundtrip(&self, rest: Seq<u8>) {
        (self.session, self.event).law_roundtrip(rest);
    }

    proof fn law_cut_ends_early(&self, cut: Seq<u8>) {
        (self.session, self.event).law_cut_ends_early(cut);
    }

    proof fn law_canonical(&self, other: &Self) {
        (self.session, self.event).law_canonical(&(other.session, other.event));
    }
}

/// The largest message that is read from a stream.
pub const MAX_MESSAGE_BYTES: u32 = 16_777_216;

/// A message behind its length.
pub open spec fn framed(bytes: Seq<u8>) -> Seq<u8> {
    crate::le::le_bytes(bytes.len(), 4) + bytes
}

/// Appends one length-prefixed message.
pub fn write_msg<T: Encode>(out: &mut Vec<u8>, msg: &T)
    requires
        msg.encodable(),
    ensures
        final(out)@ == old(out)@ + framed(msg.bytes()),
{
    let ghost start = out@;
    let mut bytes: Vec<u8> = Vec::new();
    msg.encode(&mut bytes);
    assert(bytes@ =~= msg.bytes());
    put_le(out, bytes.len() as u128, 4);
    out.append(&mut bytes);
    assert(out@ =~= start + framed(msg.bytes()));
}

/// Why no message could be read.
#[derive(Debug)]
pub enum MessageError {
    /// The length is past what is read.
    TooLarge,
    /// The stream ends inside the message.
    Cut,
    /// The message does not decode.
    Codec(CodecError),
}

/// What a stream of messages reads as at its front: nothing at its end (or
/// inside a length), else the message's canonical bytes and what it takes.
pub open spec fn read_framed<T: Decode>(buf: Seq<u8>) -> Result<
    Option<(Seq<u8>, nat)>,
    MessageError,
> {
    let len = field(buf, 0, 4);
    if buf.len() < 4 {
        Ok(None)
    } else if len > MAX_MESSAGE_BYTES {
        Err(MessageError::TooLarge)
    } else if buf.len() < 4 + len {
        Err(MessageError::Cut)
    } else {
        match parse_all::<T>(buf.subrange(4, 4 + len as int)) {
            Err(e) => Err(MessageError::Codec(e)),
            Ok(canonical) => Ok(Some((canonical, 4 + len))),
        }
    }
}

/// Messages written to a stream are read back, in order.
pub proof fn law_messages_read_back<T: Decode>(msg: T, rest: Seq<u8>)
    requires
        msg.encodable(),
        msg.bytes().len() <= MAX_MESSAGE_BYTES,
    ensures
        read_framed::<T>(framed(msg.bytes()) + rest) == Ok::<
            Option<(Seq<u8>, nat)>,
            MessageError,
        >(Some((msg.bytes(), framed(msg.bytes()).len()))),
        (framed(msg.bytes()) + rest).skip(framed(msg.bytes()).len() as int) == rest,
{
    let bytes = msg.bytes();
    let buf = framed(bytes) + rest;
    crate::le::lemma_pow256_values();
    crate::le::law_le_value_of_bytes(bytes.len(), 4);
    assert(buf.subrange(0, 4) =~= crate::le::le_bytes(bytes.len(), 4));
    assert(buf.subrange(4, 4 + bytes.len() as int) =~= bytes);
    assert(buf.skip(framed(bytes).len() as int) =~= rest);
    crate::codec::law_encoding_is_accepted(msg);
}

/// Reads one length-prefixed message and advances past it; nothing at the end
/// of the stream.
pub fn read_msg<T: Decode>(buf: &mut &[u8]) -> (r: Result<Option<T>, MessageError>)
    ensures
        match read_framed::<T>(old(buf)@) {
            Err(e) => r == Err::<Option<T>, MessageError>(e),
            Ok(None) => r matches Ok(None) && final(buf)@ == old(buf)@,
            Ok(Some((canonical, n))) => {
                &&& r matches Ok(Some(v)) && v.encodable() && v.bytes() == canonical
                &&& final(buf)@ == old(buf)@.skip(n as int)
            },
        },
{
    let b: &[u8] = *buf;
    let total: usize = b.len();
    if total < 4 {
        return Ok(None);
    }
    proof {
        crate::le::lemma_pow256_values();
        crate::le::lemma_le_value_bound(b@.subrange(0, 4));
    }
    let len: u32 = get_le(vstd::slice::slice_subrange(b, 0, 4)) as u32;
    if len > MAX_MESSAGE_BYTES {
        return Err(MessageError::TooLarge);
    }
    if total - 4 < len as usize {
        return Err(MessageError::Cut);
    }
    let end: usize = 4 + len as usize;
    let body = vstd::slice::slice_subrange(b, 4, end);
    match decode_all::<T>(body) {
        Err(e) => Err(MessageError::Codec(e)),
        Ok(v) => {
            *buf = vstd::slice::slice_subrange(b, end, total);
            assert(buf@ =~= old(buf)@.skip(end as int));
            Ok(Some(v))
        },
    }
}

/// A message goes behind its length.
pub proof fn law_message_is_framed(bytes: Seq<u8>)
    ensures
        framed(bytes).len() == 4 + bytes.len(),
        framed(bytes).take(4) == crate::le::le_bytes(bytes.len(), 4),
        framed(bytes).skip(4) == bytes,
{
    assert(framed(bytes).take(4) =~= crate::le::le_bytes(bytes.len(), 4));
    assert(framed(bytes).skip(4) =~= bytes);
}

/// What a stream ends in: nothing is read inside a length, a message that is cut
/// short or longer than it may be is refused.
pub proof fn law_stream_end_is_told<T: Decode>(buf: Seq<u8>)
    ensures
        buf.len() < 4 ==> read_framed::<T>(buf) == Ok::<Option<(Seq<u8>, nat)>, MessageError>(None),
        buf.len() >= 4 && field(buf, 0, 4) > 16_777_216 ==> read_framed::<T>(buf) == Err::<
            Option<(Seq<u8>, nat)>,
            MessageError,
        >(MessageError::TooLarge),
        buf.len() >= 4 && field(buf, 0, 4) <= 16_777_216 && buf.len() < 4 + field(buf, 0, 4)
            ==> read_framed::<T>(buf) == Err::<Option<(Seq<u8>, nat)>, MessageError>(
            MessageError::Cut,
        ),
{
}

/// The bytes of each message: its number in two bytes, then its fields in order.
pub proof fn law_message_layouts<C: Encode, E: Encode>(a: u64, b: u64, cmd: C, event: E)
    ensures
        (GatewayInput::Client { session: a, client_seq: b, cmd }).bytes() == 0u16.bytes()
            + a.bytes() + b.bytes() + cmd.bytes(),
        (GatewayInput::<C>::SessionClosed { session: a }).bytes() == 1u16.bytes() + a.bytes(),
        (ClientMsg::<C>::Hello { session: a, from_event_seq: b }).bytes() == 0u16.bytes()
            + a.bytes() + b.bytes(),
        (ClientMsg::<C>::DropCopy { session: a, from_event_seq: b }).bytes() == 1u16.bytes()
            + a.bytes() + b.bytes(),
        (ClientMsg::Cmd { client_seq: a, cmd }).bytes() == 2u16.bytes() + a.bytes() + cmd.bytes(),
        (ServerMsg::<E>::Ack { client_seq: a, seq: b }).bytes() == 0u16.bytes() + a.bytes()
            + b.bytes(),
        (ServerMsg::Event { event_seq: a, event }).bytes() == 1u16.bytes() + a.bytes()
            + event.bytes(),
        (ServerMsg::<E>::Rejected { client_seq: a, reason: RejectReason::Duplicate }).bytes()
            == 2u16.bytes() + a.bytes() + 0u16.bytes(),
        (ServerMsg::<E>::Rejected {
            client_seq: a,
            reason: RejectReason::Gap { expected: b },
        }).bytes() == 2u16.bytes() + a.bytes() + 1u16.bytes() + b.bytes(),
        (ServerMsg::<E>::Rejected { client_seq: a, reason: RejectReason::Throttled }).bytes()
            == 2u16.bytes() + a.bytes() + 2u16.bytes(),
        (Addressed { session: a, event }).bytes() == a.bytes() + event.bytes(),
{
    assert((GatewayInput::Client { session: a, client_seq: b, cmd }).bytes() =~= 0u16.bytes()
        + a.bytes() + b.bytes() + cmd.bytes());
    assert((ClientMsg::<C>::Hello { session: a, from_event_seq: b }).bytes() =~= 0u16.bytes()
        + a.bytes() + b.bytes());
    assert((ClientMsg::<C>::DropCopy { session: a, from_event_seq: b }).bytes() =~= 1u16.bytes()
        + a.bytes() + b.bytes());
    assert((ClientMsg::Cmd { client_seq: a, cmd }).bytes() =~= 2u16.bytes() + a.bytes()
        + cmd.bytes());
    assert((ServerMsg::<E>::Ack { client_seq: a, seq: b }).bytes() =~= 0u16.bytes() + a.bytes()
        + b.bytes());
    assert((ServerMsg::Event { event_seq: a, event }).bytes() =~= 1u16.bytes() + a.bytes()
        + event.bytes());
    assert((ServerMsg::<E>::Rejected { client_seq: a, reason: RejectReason::Duplicate }).bytes()
        =~= 2u16.bytes() + a.bytes() + 0u16.bytes());
    assert((ServerMsg::<E>::Rejected {
        client_seq: a,
        reason: RejectReason::Gap { expected: b },
    }).bytes() =~= 2u16.bytes() + a.bytes() + 1u16.bytes() + b.bytes());
    assert((ServerMsg::<E>::Rejected { client_seq: a, reason: RejectReason::Throttled }).bytes()
        =~= 2u16.bytes() + a.bytes() + 2u16.bytes());
}

} // verus!
