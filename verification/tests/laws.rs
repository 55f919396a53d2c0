//! What holds of the library as a whole, on concrete values.

use ticktape::codec::{decode_all, encode_to_vec, CodecError};
use ticktape::election::{Acceptor, Election, ElectionOutcome, VoteReply, VoteRequest};
use ticktape::frame::{Frame, FrameKind};
use ticktape::journal::{FsyncPolicy, Journal, JournalConfig, JournalError};
use ticktape::node::{ManualClock, Node, NodeConfig};
use ticktape::persist::PersistentAcceptor;
use ticktape::rng::Rng;
use ticktape::seq::{SeqNo, Timestamp};
use ticktape::bus::InProcBus;
use ticktape::service::{Ctx, OutBuf, Service};
use ticktape::sim::demo::{gen_transfer, Bank, Cmd};
use ticktape::sim::run::{simulate, vopr};
use ticktape::sim::SimConfig;
use ticktape::sim_storage::SimStorage;
use ticktape::snapshot::SnapshotStore;
use ticktape::storage::{IoError, Storage, StorageFile};
use ticktape::transport::packet::Packet;
use ticktape::transport::reassembler::Reassembler;

const DIR: &[u8] = b"/j";

fn frame(seq: u64, payload: &[u8]) -> Frame {
    Frame::new(SeqNo(seq), Timestamp(seq * 1000), 1, FrameKind::Input, payload.to_vec())
}

fn config(segment_bytes: u64, fsync: FsyncPolicy) -> JournalConfig {
    let mut config = JournalConfig::new(DIR);
    config.segment_bytes = segment_bytes;
    config.fsync = fsync;
    config
}

fn seg(seq: u64) -> Vec<u8> {
    format!("/j/{seq:020}.seg").into_bytes()
}

#[test]
fn a_frame_behind_a_cut_goes_to_the_same_segment() {
    let mut disk = SimStorage::new();
    let c = || config(1 << 20, FsyncPolicy::EveryFrame);
    let mut journal = Journal::open_with(c(), &mut disk).unwrap().journal;
    for i in 1..=10 {
        journal.append(&mut disk, &frame(i, b"data")).unwrap();
    }
    assert_eq!(disk.read(&seg(1)).unwrap().len(), 388);
    disk.truncate(&seg(1), 385).unwrap();
    let mut rec = Journal::open_with(c(), &mut disk).unwrap();
    assert_eq!((rec.frames.len(), rec.truncated_torn_tail), (9, true));
    rec.journal.append(&mut disk, &frame(10, b"replacement")).unwrap();
    assert_eq!(disk.read(&seg(1)).unwrap().len(), 395);
    let rec = Journal::open_with(c(), &mut disk).unwrap();
    assert_eq!((rec.frames.len(), rec.truncated_torn_tail), (10, false));
    assert_eq!(rec.frames[9].payload, b"replacement");
    assert_eq!(rec.journal.last_seq(), SeqNo(10));
}

#[test]
fn a_segment_is_left_only_once_it_is_full() {
    // A header of 28 bytes and frames of 36: two frames fill 100 bytes.
    let mut disk = SimStorage::new();
    let c = || config(100, FsyncPolicy::Never);
    let mut journal = Journal::open_with(c(), &mut disk).unwrap().journal;
    for i in 1..=5 {
        journal.append(&mut disk, &frame(i, b"data")).unwrap();
    }
    assert_eq!(disk.file_paths(), vec![seg(1), seg(3), seg(5)]);
    assert_eq!(disk.read(&seg(1)).unwrap().len(), 100);
    assert_eq!(disk.read(&seg(5)).unwrap().len(), 64);
    // A frame that fits no segment still gets one of its own.
    journal.append(&mut disk, &frame(6, &[7; 200])).unwrap();
    journal.append(&mut disk, &frame(7, b"data")).unwrap();
    assert_eq!(disk.file_paths(), vec![seg(1), seg(3), seg(5), seg(6), seg(7)]);
    // Reopening goes on in the segment that is there.
    let mut journal = Journal::open_with(c(), &mut disk).unwrap().journal;
    journal.append(&mut disk, &frame(8, b"data")).unwrap();
    assert_eq!(disk.file_paths().len(), 5);
    assert_eq!(disk.read(&seg(7)).unwrap().len(), 100);
}

#[test]
fn damage_in_front_of_the_last_segment_is_refused() {
    let mut disk = SimStorage::new();
    let c = || config(100, FsyncPolicy::EveryFrame);
    let mut journal = Journal::open_with(c(), &mut disk).unwrap().journal;
    for i in 1..=5 {
        journal.append(&mut disk, &frame(i, b"data")).unwrap();
    }
    // A cut there is damage, too.
    disk.truncate(&seg(3), 90).unwrap();
    assert!(matches!(
        Journal::open_with(c(), &mut disk),
        Err(JournalError::Corrupt { offset: 64, .. })
    ));
}

#[test]
fn a_snapshot_is_never_overwritten() {
    let mut disk = SimStorage::new();
    let store = SnapshotStore::new(DIR);
    store.write(&mut disk, SeqNo(3), 0, b"first").unwrap();
    assert!(matches!(
        store.write(&mut disk, SeqNo(3), 0, b"second"),
        Err(JournalError::Io(IoError::AlreadyExists))
    ));
    let kept = store.load_latest(&disk, SeqNo(9)).unwrap().unwrap();
    assert_eq!((kept.seq, kept.payload), (SeqNo(3), b"first".to_vec()));
    // It was synced before the write returned.
    disk.crash(&mut Rng::new(5), true);
    let kept = store.load_latest(&disk, SeqNo(9)).unwrap().unwrap();
    assert_eq!(kept.payload, b"first");
}

#[test]
fn a_refused_vote_leaves_the_disk_alone() {
    let mut disk = SimStorage::new();
    let path = b"/votes/acceptor.state";
    let mut acceptor = PersistentAcceptor::open(path, &disk).unwrap();
    acceptor.handle(&mut disk, VoteRequest { epoch: 4 }).unwrap();
    let before = disk.read(path).unwrap();
    for epoch in 0..=4 {
        assert_eq!(
            acceptor.handle(&mut disk, VoteRequest { epoch }).unwrap(),
            VoteReply::Reject { promised: 4 }
        );
    }
    assert_eq!(disk.read(path).unwrap(), before);
    assert_eq!(disk.file_paths().len(), 1);
}

#[test]
fn a_fenced_handle_has_no_length() {
    let mut disk = SimStorage::new();
    let mut file = disk.create_new(b"/f").unwrap();
    file.write_all(&mut disk, b"abc").unwrap();
    file.sync_data(&mut disk).unwrap();
    assert_eq!(file.len(&disk).unwrap(), 3);
    disk.crash(&mut Rng::new(1), false);
    assert!(file.len(&disk).is_err());
    assert_eq!(disk.read(b"/f").unwrap(), b"abc");
}

#[test]
fn power_loss_follows_the_generator() {
    let lose = |seed: u64| {
        let mut disk = SimStorage::new();
        for name in [b"/a", b"/b", b"/c"] {
            let mut file = disk.create_new(name).unwrap();
            file.write_all(&mut disk, &[0; 50]).unwrap();
        }
        let mut rng = Rng::new(seed);
        disk.crash(&mut rng, true);
        let left: Vec<Vec<u8>> =
            disk.file_paths().iter().map(|p| disk.read(p).unwrap()).collect();
        (left, rng.next_u64())
    };
    for seed in 0..20 {
        assert_eq!(lose(seed), lose(seed));
    }
    assert_ne!(lose(1), lose(2));
}

#[test]
fn a_run_repeats_with_snapshots_too() {
    for seed in [3, 17, 99] {
        let config = SimConfig { steps: 300, snapshot_every: Some(10), ..SimConfig::new(seed) };
        let a = simulate::<Bank>(&config, (), gen_transfer).unwrap();
        let b = simulate::<Bank>(&config, (), gen_transfer).unwrap();
        assert_eq!(a, b);
        assert_eq!(a.inputs + a.ticks + a.syncs + a.crashes, 301);
    }
}

#[test]
fn totals_are_the_sums_over_the_seeds() {
    let base = SimConfig { steps: 120, ..SimConfig::new(0) };
    let totals = vopr::<Bank>(&base, &[4, 5, 6], (), gen_transfer).unwrap();
    let runs: Vec<_> = [4, 5, 6]
        .iter()
        .map(|&seed| simulate::<Bank>(&SimConfig { seed, ..base }, (), gen_transfer).unwrap())
        .collect();
    assert_eq!(totals.inputs, runs.iter().map(|r| r.inputs).sum::<u64>());
    assert_eq!(totals.ticks, runs.iter().map(|r| r.ticks).sum::<u64>());
    assert_eq!(totals.syncs, runs.iter().map(|r| r.syncs).sum::<u64>());
    assert_eq!(totals.crashes, runs.iter().map(|r| r.crashes).sum::<u64>());
}

type Ledger = Node<Bank, ManualClock, SimStorage>;

fn setup(every: Option<u64>) -> NodeConfig {
    let mut setup = NodeConfig::new(DIR);
    setup.journal.fsync = FsyncPolicy::EveryFrame;
    setup.snapshot_every = every;
    setup
}

fn ledger(every: Option<u64>, now: u64, disk: SimStorage) -> Ledger {
    Node::open_with(setup(every), (), ManualClock(Timestamp(now)), disk).unwrap()
}

fn transfer(amount: u32) -> Cmd {
    Cmd::Transfer { from: 0, to: 1, amount }
}

#[test]
fn frames_carry_the_time_that_the_clock_shows() {
    let mut node = ledger(None, 7, SimStorage::new());
    let rx = node.subscribe();
    node.submit(&transfer(1)).unwrap();
    node.clock_mut().0 = Timestamp(50);
    node.tick().unwrap();
    node.clock_mut().0 = Timestamp(20);
    node.submit(&transfer(2)).unwrap();
    let times: Vec<u64> = node.drain(rx).iter().map(|f| f.timestamp.0).collect();
    assert_eq!(times, vec![7, 50, 50]);
}

#[test]
fn a_subscriber_gets_what_is_journaled() {
    let mut node = ledger(None, 1, SimStorage::new());
    node.submit(&transfer(1)).unwrap();
    let rx = node.subscribe();
    for i in 2..=9 {
        node.submit(&transfer(i)).unwrap();
        node.tick().unwrap();
    }
    assert!(node.verify_replay().unwrap());
    let got = node.drain(rx);
    let mut disk = node.into_storage();
    let journaled = Journal::open_with(setup(None).journal, &mut disk).unwrap().frames;
    assert_eq!(journaled.len(), 17);
    assert_eq!(got, journaled[1..]);
}

#[test]
fn recovery_does_not_depend_on_snapshots() {
    let mut node = ledger(Some(5), 1, SimStorage::new());
    for i in 1..=12 {
        node.submit(&transfer(i)).unwrap();
    }
    let state = node.service().snapshot();
    let seq = node.seq();
    let disk = node.into_storage();
    let snaps: Vec<Vec<u8>> =
        disk.file_paths().into_iter().filter(|p| p.ends_with(b".snap")).collect();
    assert!(!snaps.is_empty());
    for path in &snaps {
        let mut lost = disk.copy();
        lost.remove(path).unwrap();
        let mut broken = disk.copy();
        broken.rot_synced_byte(path, 40, 3);
        for disk in [lost, broken] {
            let node = ledger(Some(5), 1, disk);
            assert_eq!(node.seq(), seq);
            assert_eq!(node.service().snapshot(), state);
        }
    }
}

#[test]
fn a_cut_encoding_ends_too_early() {
    let value: (u64, String, Vec<Option<u16>>, bool) =
        (7, "text".to_string(), vec![Some(1), None, Some(3)], true);
    let bytes = encode_to_vec(&value);
    for k in 0..bytes.len() {
        assert_eq!(
            decode_all::<(u64, String, Vec<Option<u16>>, bool)>(&bytes[..k]),
            Err(CodecError::UnexpectedEof)
        );
    }
    assert_eq!(decode_all(&bytes), Ok(value));
}

fn packet(seqs: std::ops::RangeInclusive<u64>) -> Packet {
    Packet::Data { session: 1, frames: seqs.map(|s| frame(s, b"x")).collect() }
}

#[test]
fn late_and_repeated_packets_change_nothing() {
    let mut stream = Reassembler::new(SeqNo(1));
    stream.ingest(packet(1..=3)).unwrap();
    for seq in 1..=3 {
        assert_eq!(stream.next_frame().unwrap().seq, SeqNo(seq));
    }
    stream.ingest(packet(1..=3)).unwrap();
    assert_eq!(stream.next_frame(), None);
    assert_eq!(stream.gap(), None);
    assert_eq!(stream.announced_high_water(), SeqNo(3));
    stream.ingest(packet(5..=6)).unwrap();
    stream.ingest(packet(5..=6)).unwrap();
    assert_eq!(stream.gap(), Some((SeqNo(4), 1)));
    stream.ingest(packet(4..=4)).unwrap();
    for seq in 4..=6 {
        assert_eq!(stream.next_frame().unwrap().seq, SeqNo(seq));
    }
    assert_eq!(stream.next_frame(), None);
    assert_eq!(stream.packets_seen(), 5);
}

#[test]
fn the_first_copy_of_a_seq_is_delivered() {
    let copy = |seq: u64, payload: &[u8]| Packet::Data {
        session: 1,
        frames: vec![frame(seq, payload)],
    };
    let mut stream = Reassembler::new(SeqNo(1));
    stream.ingest(copy(2, b"first")).unwrap();
    stream.ingest(copy(2, b"second")).unwrap();
    stream.ingest(copy(1, b"one")).unwrap();
    stream.ingest(copy(1, b"two")).unwrap();
    assert_eq!(stream.next_frame().unwrap().payload, b"one");
    stream.ingest(copy(1, b"three")).unwrap();
    stream.ingest(copy(2, b"third")).unwrap();
    assert_eq!(stream.next_frame().unwrap().payload, b"first");
    assert_eq!(stream.next_frame(), None);
}

#[test]
fn many_frames_read_back_in_turn() {
    let mut out: Vec<u8> = Vec::new();
    let frames: Vec<Frame> = (1..=50).map(|i| frame(i, &vec![i as u8; i as usize])).collect();
    for f in &frames {
        f.write_to(&mut out);
    }
    out.extend_from_slice(b"rest");
    let mut buf = out.as_slice();
    for f in &frames {
        assert_eq!(Frame::read_from(&mut buf).as_ref(), Ok(f));
    }
    assert_eq!(buf, b"rest");
}

#[test]
fn outputs_are_emitted_in_order() {
    let mut outputs: OutBuf<u32> = OutBuf::new();
    let mut timers = Vec::new();
    let mut ctx = Ctx::new(SeqNo(4), Timestamp(9), &mut outputs, &mut timers);
    for k in 0..100 {
        ctx.emit(k);
    }
    assert_eq!((ctx.seq(), ctx.now()), (SeqNo(4), Timestamp(9)));
    assert_eq!(outputs.drain(), (0..100).collect::<Vec<u32>>());
    assert!(timers.is_empty());
}

#[test]
fn trailing_bytes_are_counted() {
    for extra in 1..9 {
        let mut bytes = encode_to_vec(&(7u64, Some("text".to_string())));
        bytes.extend(vec![0u8; extra]);
        assert_eq!(
            decode_all::<(u64, Option<String>)>(&bytes),
            Err(CodecError::TrailingBytes(extra))
        );
    }
}

#[test]
fn a_changed_byte_is_traced_to_its_frame() {
    // Segments of a header and two frames of 36 bytes.
    let c = || config(100, FsyncPolicy::EveryFrame);
    let mut disk = SimStorage::new();
    let mut journal = Journal::open_with(c(), &mut disk).unwrap().journal;
    for i in 1..=7 {
        journal.append(&mut disk, &frame(i, b"data")).unwrap();
    }
    for (segment, offsets) in [(1u64, 28..100usize), (5, 28..100)] {
        for at in offsets {
            let mut hit = disk.copy();
            hit.rot_synced_byte(&seg(segment), at, 6);
            let start = (28 + (at - 28) / 36 * 36) as u64;
            match Journal::open_with(c(), &mut hit).err() {
                Some(JournalError::Corrupt { segment: path, offset, .. }) => {
                    assert_eq!((path, offset), (seg(segment), start));
                }
                other => panic!("{other:?}"),
            }
        }
    }
}

#[test]
fn compacting_twice_removes_nothing_more() {
    let c = || config(100, FsyncPolicy::EveryFrame);
    let mut disk = SimStorage::new();
    let mut journal = Journal::open_with(c(), &mut disk).unwrap().journal;
    for i in 1..=9 {
        journal.append(&mut disk, &frame(i, b"data")).unwrap();
    }
    // Segments start at 1, 3, 5, 7 and 9.
    assert_eq!(journal.compact_below(&mut disk, SeqNo(5)).unwrap(), 2);
    assert_eq!(journal.compact_below(&mut disk, SeqNo(5)).unwrap(), 0);
    assert_eq!(journal.segment_count(&disk), 3);
    assert_eq!(journal.compact_below(&mut disk, SeqNo(100)).unwrap(), 2);
    assert_eq!(journal.compact_below(&mut disk, SeqNo(100)).unwrap(), 0);
    assert_eq!(journal.segment_count(&disk), 1);
}

#[test]
fn a_written_snapshot_is_loaded_again() {
    let mut disk = SimStorage::new();
    let store = SnapshotStore::new(DIR);
    for seq in [10u64, 30, 20] {
        store.write(&mut disk, SeqNo(seq), 3, format!("state {seq}").as_bytes()).unwrap();
    }
    assert!(store.write(&mut disk, SeqNo(20), 4, b"other").is_err());
    for torn in 0..4 {
        let mut after = disk.copy();
        after.crash(&mut Rng::new(torn), torn % 2 == 0);
        for seq in [10u64, 20, 30] {
            let s = store.load_latest(&after, SeqNo(seq)).unwrap().unwrap();
            assert_eq!((s.seq, s.epoch), (SeqNo(seq), 3));
            assert_eq!(s.payload, format!("state {seq}").into_bytes());
        }
    }
}

#[test]
fn a_closed_journal_loses_nothing_to_power_loss() {
    for seed in 0..20 {
        let c = || config(200, FsyncPolicy::Never);
        let mut disk = SimStorage::new();
        let mut journal = Journal::open_with(c(), &mut disk).unwrap().journal;
        for i in 1..=10 {
            journal.append(&mut disk, &frame(i, b"data")).unwrap();
        }
        journal.close(&mut disk).unwrap();
        disk.crash(&mut Rng::new(seed), seed % 2 == 0);
        let rec = Journal::open_with(c(), &mut disk).unwrap();
        assert_eq!((rec.frames.len(), rec.truncated_torn_tail), (10, false));
    }
}

#[test]
fn a_closed_node_loses_nothing_to_power_loss() {
    for seed in 0..20 {
        let mut lazy = setup(None);
        lazy.journal.fsync = FsyncPolicy::Never;
        let clock = ManualClock(Timestamp(1));
        let mut node: Ledger = Node::open_with(lazy, (), clock, SimStorage::new()).unwrap();
        for i in 1..=6 {
            node.submit(&transfer(i)).unwrap();
        }
        let state = node.service().snapshot();
        let (mut disk, closed) = node.close();
        closed.unwrap();
        disk.crash(&mut Rng::new(seed), seed % 2 == 0);
        let node = ledger(None, 1, disk);
        assert_eq!(node.seq(), SeqNo(6));
        assert_eq!(node.service().snapshot(), state);
    }
}

#[test]
fn a_subscriber_gets_the_marks_too() {
    let mut node = ledger(Some(4), 1, SimStorage::new());
    let rx = node.subscribe();
    for i in 1..=9 {
        node.submit(&transfer(i)).unwrap();
    }
    let tip = node.seq().0;
    let got = node.drain(rx);
    assert_eq!(got.iter().map(|f| f.seq.0).collect::<Vec<_>>(), (1..=tip).collect::<Vec<_>>());
    assert!(got.iter().any(|f| f.kind == FrameKind::SnapshotMark));
    let mut disk = node.into_storage();
    let rec = Journal::open_with(setup(None).journal, &mut disk).unwrap();
    for f in &rec.frames {
        assert_eq!(&got[f.seq.0 as usize - 1], f);
    }
    assert_eq!(rec.frames.last().unwrap().seq.0, tip);
}

#[test]
fn a_subscriber_that_left_gets_nothing_more() {
    let mut node = ledger(None, 1, SimStorage::new());
    let a = node.subscribe();
    let b = node.subscribe();
    node.submit(&transfer(1)).unwrap();
    node.unsubscribe(a);
    node.submit(&transfer(2)).unwrap();
    // The one that came behind it has its number now.
    assert_eq!(node.drain(a).iter().map(|f| f.seq.0).collect::<Vec<_>>(), vec![1, 2]);
    assert!(node.drain(b).is_empty());
    node.unsubscribe(9);
    let mut bus = InProcBus::new();
    let only = bus.subscribe();
    bus.publish(&frame(1, b"x"));
    bus.unsubscribe(only);
    bus.publish(&frame(2, b"y"));
    assert!(bus.drain(only).is_empty());
}

#[test]
fn a_won_bid_syncs_to_the_highest_of_its_grants() {
    let mut voters: Vec<Acceptor> = (0..5).map(|_| Acceptor::new()).collect();
    for (i, seq) in [7, 3, 9, 4, 8].into_iter().enumerate() {
        voters[i].observe_seq(SeqNo(seq));
    }
    let mut bid = Election::new(2, 5);
    let mut rival = Election::new(2, 5);
    for i in [0usize, 1] {
        let reply = voters[i].handle(bid.request());
        assert_eq!(bid.on_reply(i as u32, reply), ElectionOutcome::Pending);
    }
    let reply = voters[4].handle(rival.request());
    rival.on_reply(4, reply);
    let reply = voters[3].handle(bid.request());
    let won = ElectionOutcome::Won { epoch: 2, sync_to: SeqNo(7) };
    assert_eq!(bid.on_reply(3, reply), won);
    for i in 0..5 {
        let reply = voters[i].handle(rival.request());
        rival.on_reply(i as u32, reply);
    }
    assert_eq!(rival.outcome(), ElectionOutcome::Lost { highest_promised: 2 });
}

#[test]
fn grants_go_up_over_restarts() {
    let path = b"/votes";
    let mut disk = SimStorage::new();
    let mut rng = Rng::new(5);
    let mut granted = Vec::new();
    for epoch in [3u64, 3, 1, 4, 4, 9, 2, 9, 10] {
        let mut acceptor = PersistentAcceptor::open(path, &disk).unwrap();
        if let VoteReply::Grant { epoch, .. } =
            acceptor.handle(&mut disk, VoteRequest { epoch }).unwrap()
        {
            granted.push(epoch);
        }
        disk.crash(&mut rng, true);
        let again = PersistentAcceptor::open(path, &disk).unwrap();
        assert_eq!(again.promised(), *granted.last().unwrap());
    }
    assert_eq!(granted, vec![3, 4, 9, 10]);
}
