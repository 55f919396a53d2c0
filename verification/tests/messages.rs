//! What errors say.

use ticktape::codec::CodecError;
use ticktape::frame::FrameError;
use ticktape::journal::JournalError;
use ticktape::node::NodeError;
use ticktape::persist::PersistError;
use ticktape::seq::{SeqNo, Timestamp};
use ticktape::server::ServerError;
use ticktape::storage::IoError;
use ticktape::transport::replica::ReplicaError;
use ticktape::transport::TransportError;

#[test]
fn numbers_are_shown_with_their_unit() {
    assert_eq!(SeqNo(42).message(), "42");
    assert_eq!(Timestamp(7).message(), "7ns");
}

#[test]
fn codec_errors_say_what_is_wrong() {
    assert_eq!(
        CodecError::UnexpectedEof.message(),
        "unexpected end of input"
    );
    assert_eq!(
        CodecError::InvalidValue("bool").message(),
        "invalid encoded value: bool"
    );
    assert_eq!(
        CodecError::InvalidUtf8.message(),
        "invalid UTF-8 in string"
    );
    assert_eq!(
        CodecError::TrailingBytes(3).message(),
        "3 trailing bytes after decode"
    );
}

#[test]
fn frame_errors_say_what_is_wrong() {
    assert_eq!(FrameError::Truncated.message(), "truncated frame");
    assert_eq!(
        FrameError::HeaderCrc.message(),
        "frame header CRC mismatch"
    );
    assert_eq!(
        FrameError::PayloadCrc.message(),
        "frame payload CRC mismatch"
    );
    assert_eq!(
        FrameError::UnknownKind(0xAB).message(),
        "unknown frame kind 0x00ab"
    );
    assert_eq!(
        FrameError::PayloadTooLarge(9).message(),
        "payload_len 9 exceeds cap"
    );
}

#[test]
fn journal_errors_name_the_segment() {
    let segment = b"/j/1.seg".to_vec();
    assert_eq!(
        JournalError::Corrupt {
            segment: segment.clone(),
            offset: 28,
            reason: "truncated frame".to_string(),
        }
        .message(),
        "corrupt journal segment /j/1.seg at offset 28: truncated frame"
    );
    assert_eq!(
        JournalError::BadSegmentHeader {
            segment: segment.clone(),
            reason: "bad magic".to_string(),
        }
        .message(),
        "bad segment header in /j/1.seg: bad magic"
    );
    assert_eq!(
        JournalError::NonContiguousSeq {
            segment,
            expected: SeqNo(4),
            found: SeqNo(6),
        }
        .message(),
        "non-contiguous seq in /j/1.seg: expected 4, found 6"
    );
    assert_eq!(
        JournalError::OutOfOrderAppend {
            expected: SeqNo(2),
            found: SeqNo(9),
        }
        .message(),
        "out-of-order append: expected seq 2, got 9"
    );
    assert_eq!(
        JournalError::Io(IoError::Os(-5)).message(),
        "journal I/O error: os error -5"
    );
}

// A path that is no UTF-8 is shown with replacement characters.
#[test]
fn a_segment_name_that_is_no_text_is_shown_as_far_as_it_goes() {
    let shown = JournalError::BadSegmentHeader {
        segment: vec![b'/', 0xFF, b'x'],
        reason: "bad magic".to_string(),
    }
    .message();
    assert_eq!(shown, "bad segment header in /\u{FFFD}x: bad magic");
}

#[test]
fn node_errors_say_where_history_stops() {
    assert_eq!(
        NodeError::CorruptInput {
            seq: SeqNo(5),
            err: CodecError::InvalidUtf8,
        }
        .message(),
        "journaled input at seq 5 failed to decode: invalid UTF-8 in string"
    );
    assert_eq!(
        NodeError::UncoveredHistory {
            journal_first: SeqNo(30)
        }
        .message(),
        "journal compacted to seq 30 but no snapshot covers earlier history"
    );
    assert_eq!(
        NodeError::Journal(JournalError::Io(IoError::NotFound)).message(),
        "journal I/O error: no such file"
    );
}

#[test]
fn replica_errors_name_the_frame() {
    assert_eq!(
        ReplicaError::OutOfOrder {
            expected: SeqNo(2),
            got: SeqNo(4),
        }
        .message(),
        "out-of-order frame: expected seq 2, got 4"
    );
    assert_eq!(
        ReplicaError::CorruptInput {
            seq: SeqNo(2),
            err: CodecError::UnexpectedEof,
        }
        .message(),
        "input at seq 2 failed to decode: unexpected end of input"
    );
    assert_eq!(
        ReplicaError::SchemaMismatch {
            theirs: 2,
            ours: 1,
            seq: SeqNo(8),
        }
        .message(),
        "schema version mismatch at fence seq 8: leader 2, this replica 1"
    );
}

#[test]
fn transport_errors_name_the_packet() {
    assert_eq!(
        TransportError::Corrupt("bad magic").message(),
        "corrupt packet: bad magic"
    );
    assert_eq!(
        TransportError::Frame(FrameError::HeaderCrc).message(),
        "corrupt frame in packet: frame header CRC mismatch"
    );
    assert_eq!(
        TransportError::SessionMismatch {
            expected: 1,
            got: 2,
        }
        .message(),
        "session mismatch: expected 1, got 2"
    );
    assert_eq!(
        TransportError::GapUnrecoverable { from: 3, count: 4 }.message(),
        "unrecoverable gap: 4 frames from seq 3"
    );
    assert_eq!(
        TransportError::Io(IoError::Stale).message(),
        "transport I/O error: the handle was opened before power was lost"
    );
}

#[test]
fn errors_of_the_acceptor_and_the_server_pass_through() {
    assert_eq!(
        PersistError::Corrupt("bad magic").message(),
        "corrupt acceptor state: bad magic"
    );
    assert_eq!(
        PersistError::Io(IoError::AlreadyExists).message(),
        "acceptor persistence I/O error: the file exists"
    );
    assert_eq!(
        ServerError::Persist(PersistError::Corrupt("x")).message(),
        "corrupt acceptor state: x"
    );
    assert_eq!(
        ServerError::Transport(TransportError::Corrupt("y")).message(),
        "corrupt packet: y"
    );
}
