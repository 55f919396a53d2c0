//! The sequenced stream: packets, reassembly, replicas, stores and the ring.

use ticktape::codec::{encode_to_vec, Bytes, CodecError};
use ticktape::frame::{Frame, FrameKind};
use ticktape::journal::{FsyncPolicy, Journal, JournalConfig};
use ticktape::rng::Rng;
use ticktape::seq::{SeqNo, Timestamp};
use ticktape::service::{Ctx, Service, Step};
use ticktape::sim_storage::SimStorage;
use ticktape::transport::packet::{Packet, RetransmitRequest, PACKET_HEADER_LEN};
use ticktape::transport::publisher::Publisher;
use ticktape::transport::reassembler::Reassembler;
use ticktape::transport::replica::{Replica, ReplicaError};
use ticktape::transport::retransmit::{answer, PollStep, Receiver};
use ticktape::transport::ring::{publish_or_drop, ShmRing};
use ticktape::transport::store::{ChainStore, FrameStore, JournalRewinder, MemStore};
use ticktape::transport::TransportError;

const SESSION: u64 = 7;

fn frame(seq: u64) -> Frame {
    Frame::new(SeqNo(seq), Timestamp(seq), 1, FrameKind::Input, seq.to_le_bytes().to_vec())
}

fn data(seqs: std::ops::RangeInclusive<u64>) -> Packet {
    Packet::Data { session: SESSION, frames: seqs.map(frame).collect() }
}

fn drain(r: &mut Reassembler) -> Vec<u64> {
    std::iter::from_fn(|| r.next_frame()).map(|f| f.seq.0).collect()
}

#[test]
fn in_order_delivery() {
    let mut r = Reassembler::new(SeqNo(1));
    r.ingest(data(1..=3)).unwrap();
    assert_eq!(drain(&mut r), vec![1, 2, 3]);
    assert_eq!(r.gap(), None);
}

#[test]
fn ab_duplicates_discarded() {
    let mut r = Reassembler::new(SeqNo(1));
    r.ingest(data(1..=2)).unwrap(); // channel A
    r.ingest(data(1..=2)).unwrap(); // channel B copy
    r.ingest(data(2..=3)).unwrap(); // overlapping repackaging
    assert_eq!(drain(&mut r), vec![1, 2, 3]);
}

#[test]
fn reorder_buffers_until_gap_filled() {
    let mut r = Reassembler::new(SeqNo(1));
    r.ingest(data(3..=4)).unwrap();
    assert_eq!(drain(&mut r), Vec::<u64>::new());
    assert_eq!(r.gap(), Some((SeqNo(1), 2)));
    r.ingest(data(1..=2)).unwrap(); // gap-fill reply
    assert_eq!(drain(&mut r), vec![1, 2, 3, 4]);
    assert_eq!(r.gap(), None);
}

#[test]
fn heartbeat_reveals_tail_loss() {
    let mut r = Reassembler::new(SeqNo(1));
    r.ingest(data(1..=2)).unwrap();
    assert_eq!(drain(&mut r), vec![1, 2]);
    assert_eq!(r.gap(), None, "nothing known to be missing yet");
    // Frames 3..=5 were lost entirely; the heartbeat proves they exist.
    r.ingest(Packet::Heartbeat { session: SESSION, next_seq: SeqNo(6) }).unwrap();
    assert_eq!(r.gap(), Some((SeqNo(3), 3)));
}

#[test]
fn late_join_requests_history() {
    let mut r = Reassembler::new(SeqNo(1));
    r.ingest(data(100..=101)).unwrap(); // joined mid-stream
    assert_eq!(r.gap(), Some((SeqNo(1), 99)));
}

#[test]
fn warm_join_skips_history() {
    let mut r = Reassembler::new(SeqNo(100));
    r.ingest(data(100..=101)).unwrap();
    assert_eq!(drain(&mut r), vec![100, 101]);
    assert_eq!(r.gap(), None);
}

#[test]
fn session_locking() {
    let mut r = Reassembler::new(SeqNo(1));
    r.ingest(data(1..=1)).unwrap();
    let foreign = Packet::Data { session: SESSION + 1, frames: vec![frame(2)] };
    assert!(matches!(r.ingest(foreign), Err(TransportError::SessionMismatch { .. })));
}

/// A service pinned to schema version 5.
struct V5;

impl Service for V5 {
    type Input = u32;
    type Output = ();
    type Snapshot = ();
    type Config = ();
    const SCHEMA_VERSION: u32 = 5;
    fn config(&self) {}
    fn state(&self) -> Bytes {
        unreachable!()
    }
    fn genesis_state(_: ()) -> Bytes {
        unreachable!()
    }
    fn step(_: (), _: Bytes, _: u64, _: u64, _: Bytes) -> Step {
        unreachable!()
    }
    fn timer_step(_: (), _: Bytes, _: u64, _: u64, _: u64) -> Step {
        unreachable!()
    }
    fn restored(_: (), _: Bytes) -> Bytes {
        unreachable!()
    }
    fn law_restore_inverts_snapshot(&self) {}
    fn genesis(_: &()) -> Self {
        V5
    }
    fn apply(&mut self, _: SeqNo, _: &u32, _: &mut Ctx<'_, ()>) {}
    fn on_timer(&mut self, _: u64, _: &mut Ctx<'_, ()>) {}
    fn snapshot(&self) {}
    fn restore(_: (), _: &()) -> Self {
        V5
    }
}

fn fence(first_seq: u64, schema: u32) -> Frame {
    Frame::new(
        SeqNo(first_seq),
        Timestamp(1),
        1,
        FrameKind::EpochChange,
        encode_to_vec(&(9u64, first_seq, schema)),
    )
}

#[test]
fn matching_schema_fence_is_accepted() {
    let mut replica: Replica<V5> = Replica::new(&());
    assert!(replica.apply(&fence(1, 5)).is_ok());
    assert_eq!(replica.seq(), SeqNo(1));
}

#[test]
fn mismatched_schema_fence_is_rejected() {
    let mut replica: Replica<V5> = Replica::new(&());
    // The leader stamped schema 6; this replica is 5: explicit rejection.
    match replica.apply(&fence(1, 6)) {
        Err(ReplicaError::SchemaMismatch { theirs, ours, seq }) => {
            assert_eq!((theirs, ours, seq), (6, 5, SeqNo(1)));
        }
        other => panic!("expected SchemaMismatch, got {other:?}"),
    }
}

#[test]
fn legacy_two_field_fence_is_tolerated() {
    // A fence with no schema field (16-byte payload) is not checked, so old
    // streams still flow.
    let legacy = Frame::new(
        SeqNo(1),
        Timestamp(1),
        1,
        FrameKind::EpochChange,
        encode_to_vec(&(9u64, 1u64)),
    );
    let mut replica: Replica<V5> = Replica::new(&());
    assert!(replica.apply(&legacy).is_ok());
}

#[test]
fn a_replica_refuses_gaps_and_broken_inputs() {
    let mut replica: Replica<V5> = Replica::new(&());
    assert!(matches!(replica.apply(&frame(2)), Err(ReplicaError::OutOfOrder { .. })));
    let broken = Frame::new(SeqNo(1), Timestamp(1), 1, FrameKind::Input, vec![1, 2]);
    assert!(matches!(
        replica.apply(&broken),
        Err(ReplicaError::CorruptInput { err: CodecError::UnexpectedEof, .. })
    ));
}

fn named(seq: u64) -> Frame {
    Frame::new(
        SeqNo(seq),
        Timestamp(seq * 10),
        1,
        FrameKind::Input,
        format!("payload-{seq}").into_bytes(),
    )
}

#[test]
fn data_packet_roundtrip() {
    let packet = Packet::Data { session: 0xABCD, frames: vec![named(5), named(6), named(7)] };
    let bytes = packet.encode();
    assert_eq!(Packet::decode(&bytes).unwrap(), packet);
}

#[test]
fn heartbeat_roundtrip() {
    let packet = Packet::Heartbeat { session: 9, next_seq: SeqNo(1234) };
    assert_eq!(Packet::decode(&packet.encode()).unwrap(), packet);
}

#[test]
fn corruption_detected() {
    let packet = Packet::Data { session: 1, frames: vec![named(1)] };
    let mut bytes = packet.encode();
    bytes[8] ^= 0xFF; // session byte: the header CRC must catch it
    assert!(matches!(Packet::decode(&bytes), Err(TransportError::Corrupt(_))));
}

#[test]
fn non_contiguous_frames_rejected() {
    // Hand-build a packet claiming first_seq=1 but carrying seq 1,3.
    let good = Packet::Data { session: 1, frames: vec![named(1), named(2)] };
    let mut bytes = good.encode();
    // Overwrite second frame with seq 3's encoding.
    let f1_len = named(1).encoded_len();
    let f3 = named(3).to_bytes();
    // named(2) and named(3) encode to the same length here.
    bytes.truncate(PACKET_HEADER_LEN + f1_len);
    bytes.extend_from_slice(&f3);
    assert!(matches!(
        Packet::decode(&bytes),
        Err(TransportError::Corrupt("non-contiguous frames in packet"))
    ));
}

#[test]
fn request_roundtrip() {
    let req = RetransmitRequest { session: 42, from: SeqNo(100), count: 512 };
    assert_eq!(RetransmitRequest::decode(&req.encode()).unwrap(), req);
}

#[test]
fn reassembly_is_exact_under_loss_dup_and_reorder() {
    let session = 1u64;
    let frame = |seq: u64| {
        Frame::new(SeqNo(seq), Timestamp(seq * 3), 1, FrameKind::Input, seq.to_le_bytes().to_vec())
    };
    for seed in 0..200u64 {
        let mut rng = Rng::new(seed);
        let total = 200 + rng.below(200);

        // Package the stream into packets of 1..=3 frames.
        let mut packets = Vec::new();
        let mut seq = 1u64;
        while seq <= total {
            let n = (1 + rng.below(3)).min(total - seq + 1);
            packets.push(Packet::Data { session, frames: (seq..seq + n).map(frame).collect() });
            seq += n;
        }

        // The hostile network: drop 20%, duplicate 20%, then shuffle.
        let mut wire: Vec<Packet> = Vec::new();
        for packet in packets {
            if rng.chance(1, 5) {
                continue; // lost on both channels
            }
            if rng.chance(1, 5) {
                wire.push(packet.clone()); // A/B duplicate
            }
            wire.push(packet);
        }
        for i in (1..wire.len()).rev() {
            let j = rng.below(i as u64 + 1) as usize;
            wire.swap(i, j);
        }
        // Trailing heartbeat so tail loss is provable.
        wire.push(Packet::Heartbeat { session, next_seq: SeqNo(total + 1) });

        // Feed the wire; whenever a gap is reported, serve it from the
        // oracle (the full stream) like a retransmitter would.
        let mut reassembler = Reassembler::new(SeqNo(1));
        let mut delivered = Vec::new();
        for packet in wire {
            reassembler.ingest(packet).unwrap();
            while let Some(frame) = reassembler.next_frame() {
                delivered.push(frame.seq.0);
            }
        }
        while let Some((from, count)) = reassembler.gap() {
            let fill = Packet::Data {
                session,
                frames: (from.0..from.0 + count).map(frame).collect(),
            };
            reassembler.ingest(fill).unwrap();
            while let Some(frame) = reassembler.next_frame() {
                delivered.push(frame.seq.0);
            }
        }

        let expected: Vec<u64> = (1..=total).collect();
        assert_eq!(delivered, expected, "seed {seed}: stream not reconstructed exactly");
    }
}

#[test]
fn repeater_is_bounded_and_ages_out() {
    let mut store = MemStore::with_capacity(10);
    for seq in 1..=100 {
        store.record(frame(seq));
    }
    // Only the last 10 frames are retained.
    assert_eq!(store.low_water(), SeqNo(91));
    assert_eq!(store.high_water(), SeqNo(100));
    // Old range is gone (aged out); recent range served.
    assert!(store.range(SeqNo(50), 5).is_empty());
    let recent = store.range(SeqNo(95), 3);
    assert_eq!(recent.iter().map(|f| f.seq.0).collect::<Vec<_>>(), vec![95, 96, 97]);
}

#[test]
fn rewinder_serves_from_journal() {
    let mut storage = SimStorage::new();
    let mut config = JournalConfig::new(b"/j");
    config.fsync = FsyncPolicy::EveryFrame;
    {
        let mut journal = Journal::open_with(config.clone(), &mut storage).unwrap().journal;
        for seq in 1..=60 {
            journal.append(&mut storage, &frame(seq)).unwrap();
        }
    }
    let mut rewinder = JournalRewinder::new(config, storage);
    assert_eq!(rewinder.low_water(), SeqNo(1));
    assert_eq!(rewinder.high_water(), SeqNo(60));
    let got = rewinder.range(SeqNo(10), 4);
    assert_eq!(got.iter().map(|f| f.seq.0).collect::<Vec<_>>(), vec![10, 11, 12, 13]);
}

#[test]
fn chain_serves_recent_from_repeater_and_old_from_rewinder() {
    let mut storage = SimStorage::new();
    let mut config = JournalConfig::new(b"/j");
    config.fsync = FsyncPolicy::EveryFrame;
    let mut repeater = MemStore::with_capacity(10);
    {
        let mut journal = Journal::open_with(config.clone(), &mut storage).unwrap().journal;
        for seq in 1..=100 {
            journal.append(&mut storage, &frame(seq)).unwrap();
            repeater.record(frame(seq)); // repeater keeps only last 10
        }
    }
    let mut chain =
        ChainStore { primary: repeater, secondary: JournalRewinder::new(config, storage) };
    // Recent range (in the window): served from the repeater.
    let recent = chain.range(SeqNo(95), 3);
    assert_eq!(recent.iter().map(|f| f.seq.0).collect::<Vec<_>>(), vec![95, 96, 97]);
    // Old range (aged out of the window): served from the journal.
    let old = chain.range(SeqNo(5), 4);
    assert_eq!(old.iter().map(|f| f.seq.0).collect::<Vec<_>>(), vec![5, 6, 7, 8]);
    assert_eq!(chain.low_water(), SeqNo(1));
    assert_eq!(chain.high_water(), SeqNo(100));
}

fn padded(seq: u64) -> Frame {
    Frame::new(SeqNo(seq), Timestamp(seq), 1, FrameKind::Input, vec![0u8; 24])
}

#[test]
fn round_trips_packets_through_shared_memory() {
    let mut ring = ShmRing::create(64, 1400);

    // Publish 40 single-frame packets; drain them in order.
    for seq in 1..=40u64 {
        let bytes = Packet::Data { session: 7, frames: vec![padded(seq)] }.encode();
        assert!(ring.publish(&bytes));
    }
    for seq in 1..=40u64 {
        let bytes = ring.try_recv(2048).expect("packet available");
        match Packet::decode(&bytes).unwrap() {
            Packet::Data { frames, .. } => assert_eq!(frames[0].seq, SeqNo(seq)),
            _ => panic!("expected data"),
        }
    }
    assert!(ring.try_recv(2048).is_none(), "ring should be empty");
}

#[test]
fn full_ring_drops_rather_than_corrupts() {
    let mut ring = ShmRing::create(4, 64);
    // Capacity 4: the 5th publish with nothing drained must fail cleanly.
    for _ in 0..4 {
        assert!(ring.publish(b"abc"));
    }
    assert!(!ring.publish(b"abc"), "full ring must drop, not overwrite");
    // Drain one, then one more fits.
    assert_eq!(ring.try_recv(64).map(|p| p.len()), Some(3));
    assert!(ring.publish(b"xyz"));
}

#[test]
fn a_drop_can_be_noticed() {
    let mut ring = ShmRing::create(1, 8);
    assert!(publish_or_drop(&mut ring, b"one").unwrap());
    assert!(!publish_or_drop(&mut ring, b"two").unwrap());
    assert_eq!(ring.try_recv(64), Some(b"one".to_vec()));
    assert_eq!(ring.try_recv(64), None);
}

/// Feeds one channel's packets to a receiver and steps it, answering
/// retransmission requests from `store`.
fn settle(receiver: &mut Receiver, store: &mut MemStore, session: u64) -> Vec<Frame> {
    let mut out = Vec::new();
    loop {
        match receiver.step(true).unwrap() {
            PollStep::Deliver(frame) => out.push(frame),
            PollStep::Fill(mut fill) => {
                while let Some(request) = fill.request() {
                    let reply = answer(session, store, &request.encode()).unwrap();
                    receiver.on_reply(&mut fill, &reply).unwrap();
                }
            }
            PollStep::Wait => return out,
        }
    }
}

fn stream_frame(seq: u64) -> Frame {
    Frame::new(SeqNo(seq), Timestamp(seq), 1, FrameKind::Input, encode_to_vec(&(seq as u32)))
}

const STREAM: u64 = 0x5EED;

fn stream_packet(seq: u64) -> Vec<u8> {
    Packet::Data { session: STREAM, frames: vec![stream_frame(seq)] }.encode()
}

fn seqs(frames: &[Frame]) -> Vec<u64> {
    frames.iter().map(|f| f.seq.0).collect()
}

#[test]
fn ab_redundancy_covers_single_channel_loss() {
    // Odd frames arrive only on A and even frames only on B: total
    // single-channel loss both ways. A is drained before B.
    let mut receiver = Receiver::new(SeqNo(1));
    for seq in (1..=50u64).filter(|s| s % 2 == 1) {
        receiver.on_packet(&stream_packet(seq)).unwrap();
    }
    for seq in (1..=50u64).filter(|s| s % 2 == 0) {
        receiver.on_packet(&stream_packet(seq)).unwrap();
    }
    let got = settle(&mut receiver, &mut MemStore::new(), STREAM);
    assert_eq!(seqs(&got), (1..=50).collect::<Vec<_>>());
}

#[test]
fn gap_fill_recovers_frames_lost_on_both_channels() {
    // The store has everything; the wire drops seqs 10..=19 entirely.
    let mut store = MemStore::new();
    for seq in 1..=60u64 {
        store.record(stream_frame(seq));
    }
    let mut receiver = Receiver::new(SeqNo(1));
    for seq in (1..=60u64).filter(|s| !(10..=19).contains(s)) {
        receiver.on_packet(&stream_packet(seq)).unwrap();
    }
    let got = settle(&mut receiver, &mut store, STREAM);
    assert_eq!(seqs(&got), (1..=60).collect::<Vec<_>>());
}

#[test]
fn late_joiner_catches_up_from_retransmitter() {
    let mut store = MemStore::new();
    for seq in 1..=100u64 {
        store.record(stream_frame(seq));
    }
    // Joiner only ever sees live traffic from seq 95.
    let mut receiver = Receiver::new(SeqNo(1));
    for seq in 95..=100u64 {
        receiver.on_packet(&stream_packet(seq)).unwrap();
    }
    let got = settle(&mut receiver, &mut store, STREAM);
    assert_eq!(seqs(&got), (1..=100).collect::<Vec<_>>());
}

#[test]
fn a_gap_with_nobody_to_fill_it_is_an_error() {
    let mut receiver = Receiver::new(SeqNo(1));
    receiver.on_packet(&stream_packet(3)).unwrap();
    assert!(matches!(
        receiver.step(false),
        Err(TransportError::GapUnrecoverable { from: 1, count: 2 })
    ));
}

#[test]
fn publishing_a_batch_packs_frames_and_keeps_the_order() {
    let mut publisher = Publisher::new(STREAM);
    let frames: Vec<Frame> = (1..=500).map(stream_frame).collect();
    let packets = publisher.publish_batch(&frames);
    assert!(packets.len() > 1 && packets.len() < 500);
    let mut receiver = Receiver::new(SeqNo(1));
    for packet in &packets {
        receiver.on_packet(packet).unwrap();
    }
    receiver.on_packet(&publisher.heartbeat()).unwrap();
    let got = settle(&mut receiver, &mut MemStore::new(), STREAM);
    assert_eq!(seqs(&got), (1..=500).collect::<Vec<_>>());
}
