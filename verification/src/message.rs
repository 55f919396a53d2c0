//! What errors say.

use vstd::prelude::*;
use vstd::string::StringExecFns;

use crate::codec::CodecError;
use crate::frame::FrameError;
use crate::journal::{JournalError, JournalFault};
use crate::node::NodeError;
use crate::persist::PersistError;
use crate::segment::{frame_error_reason, frame_error_text};
use crate::seq::{SeqNo, Timestamp};
use crate::server::ServerError;
use crate::storage::IoError;
use crate::text::{decimal, push_decimal, push_signed, signed_decimal, text};
use crate::transport::replica::ReplicaError;
use crate::transport::TransportError;

verus! {

impl SeqNo {
    /// The number.
    pub fn message(&self) -> (r: String)
        ensures
            r@ == decimal(self.0 as nat),
    {
        let mut out = text("");
        proof {
            lemma_empty_text();
        }
        push_decimal(&mut out, self.0);
        assert(out@ =~= decimal(self.0 as nat));
        out
    }
}

proof fn lemma_empty_text()
    ensures
        ""@ == Seq::<char>::empty(),
{
    reveal_strlit("");
    assert(""@ =~= Seq::<char>::empty());
}

impl Timestamp {
    /// The nanoseconds.
    pub fn message(&self) -> (r: String)
        ensures
            r@ == decimal(self.0 as nat) + "ns"@,
    {
        let mut out = text("");
        proof {
            lemma_empty_text();
        }
        push_decimal(&mut out, self.0);
        out.append("ns");
        assert(out@ =~= decimal(self.0 as nat) + "ns"@);
        out
    }
}

/// What a codec error says.
pub open spec fn codec_text(e: CodecError) -> Seq<char> {
    match e {
        CodecError::UnexpectedEof => "unexpected end of input"@,
        CodecError::InvalidValue(what) => "invalid encoded value: "@ + what@,
        CodecError::InvalidUtf8 => "invalid UTF-8 in string"@,
        CodecError::TrailingBytes(n) => decimal(n as nat) + " trailing bytes after decode"@,
    }
}

impl CodecError {
    pub fn message(&self) -> (r: String)
        ensures
            r@ == codec_text(*self),
    {
        match self {
            CodecError::UnexpectedEof => text("unexpected end of input"),
            CodecError::InvalidValue(what) => {
                let mut out = text("invalid encoded value: ");
                out.append(what);
                out
            },
            CodecError::InvalidUtf8 => text("invalid UTF-8 in string"),
            CodecError::TrailingBytes(n) => {
                let mut out = text("");
                proof {
                    lemma_empty_text();
                }
                push_decimal(&mut out, *n as u64);
                out.append(" trailing bytes after decode");
                assert(out@ =~= codec_text(*self));
                out
            },
        }
    }
}

impl FrameError {
    pub fn message(&self) -> (r: String)
        ensures
            r@ == frame_error_text(*self),
    {
        frame_error_reason(self)
    }
}

/// What a storage error says.
pub open spec fn io_text(e: IoError) -> Seq<char> {
    match e {
        IoError::NotFound => "no such file"@,
        IoError::AlreadyExists => "the file exists"@,
        IoError::Stale => "the handle was opened before power was lost"@,
        IoError::Os(code) => "os error "@ + signed_decimal(code as int),
    }
}

impl IoError {
    pub fn message(&self) -> (r: String)
        ensures
            r@ == io_text(*self),
    {
        match self {
            IoError::NotFound => text("no such file"),
            IoError::AlreadyExists => text("the file exists"),
            IoError::Stale => text("the handle was opened before power was lost"),
            IoError::Os(code) => {
                let mut out = text("os error ");
                push_signed(&mut out, *code as i64);
                out
            },
        }
    }
}

/// What `String::from_utf8_lossy` makes of bytes.
pub uninterp spec fn lossy(bytes: Seq<u8>) -> Seq<char>;

/// `String::from_utf8_lossy`: valid UTF-8 as it is; what is not valid is
/// replaced, and how is not said here.
#[verifier::external_body]
fn string_from_utf8_lossy(bytes: &[u8]) -> (r: String)
    ensures
        r@ == lossy(bytes@),
        vstd::utf8::valid_utf8(bytes@) ==> vstd::utf8::encode_utf8(r@) == bytes@,
{
    String::from_utf8_lossy(bytes).into_owned()
}

/// What a journal error says.
pub open spec fn journal_text(e: JournalFault) -> Seq<char> {
    match e {
        JournalFault::Io(e) => "journal I/O error: "@ + io_text(e),
        JournalFault::Corrupt { segment, offset, reason } => "corrupt journal segment "@ + lossy(
            segment,
        ) + " at offset "@ + decimal(offset as nat) + ": "@ + reason,
        JournalFault::BadSegmentHeader { segment, reason } => "bad segment header in "@ + lossy(
            segment,
        ) + ": "@ + reason,
        JournalFault::NonContiguousSeq { segment, expected, found } => "non-contiguous seq in "@
            + lossy(segment) + ": expected "@ + decimal(expected as nat) + ", found "@ + decimal(
            found as nat,
        ),
        JournalFault::OutOfOrderAppend { expected, found } => "out-of-order append: expected seq "@
            + decimal(expected as nat) + ", got "@ + decimal(found as nat),
        JournalFault::SeqExhausted => "sequence numbers are used up"@,
    }
}

impl JournalError {
    pub fn message(&self) -> (r: String)
        ensures
            r@ == journal_text(self@),
    {
        match self {
            JournalError::Io(e) => {
                let mut out = text("journal I/O error: ");
                out.append(e.message().as_str());
                out
            },
            JournalError::Corrupt { segment, offset, reason } => {
                let mut out = text("corrupt journal segment ");
                out.append(string_from_utf8_lossy(segment.as_slice()).as_str());
                out.append(" at offset ");
                push_decimal(&mut out, *offset);
                out.append(": ");
                out.append(reason.as_str());
                out
            },
            JournalError::BadSegmentHeader { segment, reason } => {
                let mut out = text("bad segment header in ");
                out.append(string_from_utf8_lossy(segment.as_slice()).as_str());
                out.append(": ");
                out.append(reason.as_str());
                out
            },
            JournalError::NonContiguousSeq { segment, expected, found } => {
                let mut out = text("non-contiguous seq in ");
                out.append(string_from_utf8_lossy(segment.as_slice()).as_str());
                out.append(": expected ");
                push_decimal(&mut out, expected.0);
                out.append(", found ");
                push_decimal(&mut out, found.0);
                out
            },
            JournalError::OutOfOrderAppend { expected, found } => {
                let mut out = text("out-of-order append: expected seq ");
                push_decimal(&mut out, expected.0);
                out.append(", got ");
                push_decimal(&mut out, found.0);
                out
            },
            JournalError::SeqExhausted => text("sequence numbers are used up"),
        }
    }
}

/// What a node error says.
pub open spec fn node_text(e: NodeError) -> Seq<char> {
    match e {
        NodeError::Journal(e) => journal_text(e@),
        NodeError::CorruptInput { seq, err } => "journaled input at seq "@ + decimal(seq.0 as nat)
            + " failed to decode: "@ + codec_text(err),
        NodeError::UncoveredHistory { journal_first } => "journal compacted to seq "@ + decimal(
            journal_first.0 as nat,
        ) + " but no snapshot covers earlier history"@,
        NodeError::SnapshotTooLarge => "the state is too large for a snapshot"@,
    }
}

impl NodeError {
    pub fn message(&self) -> (r: String)
        ensures
            r@ == node_text(*self),
    {
        match self {
            NodeError::Journal(e) => e.message(),
            NodeError::CorruptInput { seq, err } => {
                let mut out = text("journaled input at seq ");
                push_decimal(&mut out, seq.0);
                out.append(" failed to decode: ");
                out.append(err.message().as_str());
                out
            },
            NodeError::UncoveredHistory { journal_first } => {
                let mut out = text("journal compacted to seq ");
                push_decimal(&mut out, journal_first.0);
                out.append(" but no snapshot covers earlier history");
                out
            },
            NodeError::SnapshotTooLarge => text("the state is too large for a snapshot"),
        }
    }
}

/// What a replica's error says.
pub open spec fn replica_text(e: ReplicaError) -> Seq<char> {
    match e {
        ReplicaError::OutOfOrder { expected, got } => "out-of-order frame: expected seq "@
            + decimal(expected.0 as nat) + ", got "@ + decimal(got.0 as nat),
        ReplicaError::CorruptInput { seq, err } => "input at seq "@ + decimal(seq.0 as nat)
            + " failed to decode: "@ + codec_text(err),
        ReplicaError::SchemaMismatch { theirs, ours, seq } =>
            "schema version mismatch at fence seq "@ + decimal(seq.0 as nat) + ": leader "@
            + decimal(theirs as nat) + ", this replica "@ + decimal(ours as nat),
    }
}

impl ReplicaError {
    pub fn message(&self) -> (r: String)
        ensures
            r@ == replica_text(*self),
    {
        match self {
            ReplicaError::OutOfOrder { expected, got } => {
                let mut out = text("out-of-order frame: expected seq ");
                push_decimal(&mut out, expected.0);
                out.append(", got ");
                push_decimal(&mut out, got.0);
                out
            },
            ReplicaError::CorruptInput { seq, err } => {
                let mut out = text("input at seq ");
                push_decimal(&mut out, seq.0);
                out.append(" failed to decode: ");
                out.append(err.message().as_str());
                out
            },
            ReplicaError::SchemaMismatch { theirs, ours, seq } => {
                let mut out = text("schema version mismatch at fence seq ");
                push_decimal(&mut out, seq.0);
                out.append(": leader ");
                push_decimal(&mut out, *theirs as u64);
                out.append(", this replica ");
                push_decimal(&mut out, *ours as u64);
                out
            },
        }
    }
}

/// What a transport error says.
pub open spec fn transport_text(e: TransportError) -> Seq<char> {
    match e {
        TransportError::Io(e) => "transport I/O error: "@ + io_text(e),
        TransportError::Corrupt(what) => "corrupt packet: "@ + what@,
        TransportError::Frame(e) => "corrupt frame in packet: "@ + frame_error_text(e),
        TransportError::SessionMismatch { expected, got } => "session mismatch: expected "@
            + decimal(expected as nat) + ", got "@ + decimal(got as nat),
        TransportError::GapUnrecoverable { from, count } => "unrecoverable gap: "@ + decimal(
            count as nat,
        ) + " frames from seq "@ + decimal(from as nat),
    }
}

impl TransportError {
    pub fn message(&self) -> (r: String)
        ensures
            r@ == transport_text(*self),
    {
        match self {
            TransportError::Io(e) => {
                let mut out = text("transport I/O error: ");
                out.append(e.message().as_str());
                out
            },
            TransportError::Corrupt(what) => {
                let mut out = text("corrupt packet: ");
                out.append(what);
                out
            },
            TransportError::Frame(e) => {
                let mut out = text("corrupt frame in packet: ");
                out.append(e.message().as_str());
                out
            },
            TransportError::SessionMismatch { expected, got } => {
                let mut out = text("session mismatch: expected ");
                push_decimal(&mut out, *expected);
                out.append(", got ");
                push_decimal(&mut out, *got);
                out
            },
            TransportError::GapUnrecoverable { from, count } => {
                let mut out = text("unrecoverable gap: ");
                push_decimal(&mut out, *count);
                out.append(" frames from seq ");
                push_decimal(&mut out, *from);
                out
            },
        }
    }
}

/// What an error of the acceptor's state says.
pub open spec fn persist_text(e: PersistError) -> Seq<char> {
    match e {
        PersistError::Io(e) => "acceptor persistence I/O error: "@ + io_text(e),
        PersistError::Corrupt(what) => "corrupt acceptor state: "@ + what@,
    }
}

impl PersistError {
    pub fn message(&self) -> (r: String)
        ensures
            r@ == persist_text(*self),
    {
        match self {
            PersistError::Io(e) => {
                let mut out = text("acceptor persistence I/O error: ");
                out.append(e.message().as_str());
                out
            },
            PersistError::Corrupt(what) => {
                let mut out = text("corrupt acceptor state: ");
                out.append(what);
                out
            },
        }
    }
}

/// What a server's error says.
pub open spec fn server_text(e: ServerError) -> Seq<char> {
    match e {
        ServerError::Node(e) => node_text(e),
        ServerError::Persist(e) => persist_text(e),
        ServerError::Transport(e) => transport_text(e),
        ServerError::ElectionLost { highest_promised } =>
            "promotion lost the election (highest promised epoch "@ + decimal(
            highest_promised as nat,
        ) + ")"@,
        ServerError::WrongRole(what) => "wrong role: "@ + what@,
    }
}

impl ServerError {
    pub fn message(&self) -> (r: String)
        ensures
            r@ == server_text(*self),
    {
        match self {
            ServerError::Node(e) => e.message(),
            ServerError::Persist(e) => e.message(),
            ServerError::Transport(e) => e.message(),
            ServerError::ElectionLost { highest_promised } => {
                let mut out = text("promotion lost the election (highest promised epoch ");
                push_decimal(&mut out, *highest_promised);
                out.append(")");
                out
            },
            ServerError::WrongRole(what) => {
                let mut out = text("wrong role: ");
                out.append(what);
                out
            },
        }
    }
}

} // verus!
