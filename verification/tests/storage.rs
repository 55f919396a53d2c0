//! The simulated disk, the journal, snapshots and the seeded generator.

use ticktape::frame::{Frame, FrameKind};
use ticktape::journal::{
    scan_segment, FsyncPolicy, Journal, JournalConfig, JournalError, Recovered,
};
use ticktape::rng::Rng;
use ticktape::segment::SEGMENT_HEADER_LEN;
use ticktape::seq::{SeqNo, Timestamp};
use ticktape::sim_storage::SimStorage;
use ticktape::snapshot::{SnapshotStore, SNAPSHOT_HEADER_LEN};
use ticktape::storage::{IoError, Storage, StorageFile};

#[test]
fn same_seed_same_stream() {
    let a: Vec<u64> = {
        let mut r = Rng::new(42);
        (0..64).map(|_| r.next_u64()).collect()
    };
    let b: Vec<u64> = {
        let mut r = Rng::new(42);
        (0..64).map(|_| r.next_u64()).collect()
    };
    assert_eq!(a, b);
    let c: Vec<u64> = {
        let mut r = Rng::new(43);
        (0..64).map(|_| r.next_u64()).collect()
    };
    assert_ne!(a, c);
}

#[test]
fn splitmix64_known_answer() {
    // Reference vector for seed 0 (Vigna's splitmix64.c).
    let mut r = Rng::new(0);
    assert_eq!(r.next_u64(), 0xE220_A839_7B1D_CDAF);
    assert_eq!(r.next_u64(), 0x6E78_9E6A_A1B9_65F4);
}

const SEG: &[u8] = b"/j/seg";

#[test]
fn unsynced_tail_can_be_lost_on_crash() {
    let mut storage = SimStorage::new();
    let mut file = storage.create_new(SEG).unwrap();
    file.write_all(&mut storage, b"synced").unwrap();
    file.sync_data(&mut storage).unwrap();
    file.write_all(&mut storage, b"-unsynced").unwrap();

    // Seed chosen arbitrarily; whatever survives must be a prefix.
    let mut rng = Rng::new(7);
    storage.crash(&mut rng, false);

    let contents = storage.read(SEG).unwrap();
    assert!(contents.starts_with(b"synced"));
    assert!(contents.len() <= b"synced-unsynced".len());

    // The old handle is fenced.
    assert!(file.write_all(&mut storage, b"zombie").is_err());
    assert!(file.sync_data(&mut storage).is_err());
    assert_eq!(storage.read(SEG).unwrap(), contents);
}

#[test]
fn synced_bytes_always_survive() {
    let mut storage = SimStorage::new();
    let mut file = storage.create_new(SEG).unwrap();
    file.write_all(&mut storage, b"durable").unwrap();
    file.sync_data(&mut storage).unwrap();
    for seed in 0..20 {
        storage.crash(&mut Rng::new(seed), true);
        assert!(storage.read(SEG).unwrap().starts_with(b"durable"));
    }
}

#[test]
fn truncate_discards_tail_durably() {
    let mut storage = SimStorage::new();
    let mut file = storage.create_new(SEG).unwrap();
    file.write_all(&mut storage, b"keep-me-drop-me").unwrap();
    storage.truncate(SEG, 7).unwrap();
    assert_eq!(storage.read(SEG).unwrap(), b"keep-me");
    storage.crash(&mut Rng::new(1), false);
    assert_eq!(storage.read(SEG).unwrap(), b"keep-me");
}

#[test]
fn missing_and_existing_files_are_told_apart() {
    let mut storage = SimStorage::new();
    assert_eq!(storage.read(SEG), Err(IoError::NotFound));
    assert!(storage.open_append(SEG).is_err());
    storage.create_new(SEG).unwrap();
    assert!(matches!(storage.create_new(SEG), Err(IoError::AlreadyExists)));
    assert_eq!(storage.list_dir(b"/j").unwrap(), vec![SEG.to_vec()]);
    storage.remove(SEG).unwrap();
    assert!(storage.list_dir(b"/j").unwrap().is_empty());
}

fn frame(seq: u64, payload: &[u8]) -> Frame {
    Frame::new(SeqNo(seq), Timestamp(seq * 1000), 1, FrameKind::Input, payload.to_vec())
}

const DIR: &[u8] = b"/journal";

fn open(storage: &mut SimStorage, segment_bytes: u64) -> Recovered<SimStorage> {
    let mut config = JournalConfig::new(DIR);
    config.segment_bytes = segment_bytes;
    config.fsync = FsyncPolicy::EveryFrame;
    Journal::open_with(config, storage).expect("open journal")
}

/// Replaces a whole file.
fn overwrite(storage: &mut SimStorage, path: &[u8], bytes: &[u8]) {
    storage.remove(path).unwrap();
    let mut file = storage.create_new(path).unwrap();
    file.write_all(storage, bytes).unwrap();
    file.sync_data(storage).unwrap();
}

fn segments(storage: &SimStorage) -> Vec<Vec<u8>> {
    let mut paths = storage.list_dir(DIR).unwrap();
    paths.sort();
    paths
}

#[test]
fn append_reopen_replay() {
    let mut storage = SimStorage::new();
    {
        let mut rec = open(&mut storage, 1 << 20);
        assert!(rec.frames.is_empty());
        for i in 1..=100u64 {
            rec.journal
                .append(&mut storage, &frame(i, format!("payload-{i}").as_bytes()))
                .unwrap();
        }
        assert_eq!(rec.journal.last_seq(), SeqNo(100));
    }
    let rec = open(&mut storage, 1 << 20);
    assert_eq!(rec.frames.len(), 100);
    assert!(!rec.truncated_torn_tail);
    assert_eq!(rec.frames[0].seq, SeqNo(1));
    assert_eq!(rec.frames[99].seq, SeqNo(100));
    assert_eq!(rec.frames[41].payload, b"payload-42");
    assert_eq!(rec.journal.last_seq(), SeqNo(100));
}

#[test]
fn rolls_segments_and_replays_across_them() {
    let mut storage = SimStorage::new();
    {
        // Tiny segments force several rolls.
        let mut rec = open(&mut storage, 256);
        for i in 1..=50u64 {
            rec.journal.append(&mut storage, &frame(i, b"0123456789abcdef")).unwrap();
        }
    }
    let seg_count = segments(&storage).len();
    assert!(seg_count > 1, "expected multiple segments, got {seg_count}");
    let rec = open(&mut storage, 256);
    assert_eq!(rec.frames.len(), 50);
    assert_eq!(rec.journal.last_seq(), SeqNo(50));
}

#[test]
fn torn_tail_is_truncated_to_last_intact_frame() {
    let mut storage = SimStorage::new();
    {
        let mut rec = open(&mut storage, 1 << 20);
        for i in 1..=10u64 {
            rec.journal.append(&mut storage, &frame(i, b"data")).unwrap();
        }
    }
    // Tear the last frame: chop off its final 3 bytes.
    let seg_path = segments(&storage).remove(0);
    let len = storage.read(&seg_path).unwrap().len() as u64;
    storage.truncate(&seg_path, len - 3).unwrap();

    let rec = open(&mut storage, 1 << 20);
    assert!(rec.truncated_torn_tail);
    assert_eq!(rec.frames.len(), 9, "torn 10th frame must be dropped");
    assert_eq!(rec.journal.last_seq(), SeqNo(9));

    // And the journal must be appendable again at seq 10.
    let mut journal = rec.journal;
    journal.append(&mut storage, &frame(10, b"replacement")).unwrap();
    drop(journal);
    let rec = open(&mut storage, 1 << 20);
    assert_eq!(rec.frames.len(), 10);
    assert_eq!(rec.frames[9].payload, b"replacement");
}

#[test]
fn garbage_tail_is_truncated() {
    let mut storage = SimStorage::new();
    {
        let mut rec = open(&mut storage, 1 << 20);
        for i in 1..=5u64 {
            rec.journal.append(&mut storage, &frame(i, b"data")).unwrap();
        }
    }
    let seg_path = segments(&storage).remove(0);
    let mut file = storage.open_append(&seg_path).unwrap();
    file.write_all(&mut storage, &[0xAB; 40]).unwrap(); // garbage past the last frame

    let rec = open(&mut storage, 1 << 20);
    assert!(rec.truncated_torn_tail);
    assert_eq!(rec.frames.len(), 5);
}

#[test]
fn out_of_order_append_rejected() {
    let mut storage = SimStorage::new();
    let mut rec = open(&mut storage, 1 << 20);
    rec.journal.append(&mut storage, &frame(1, b"a")).unwrap();
    let err = rec.journal.append(&mut storage, &frame(3, b"skip")).unwrap_err();
    assert!(matches!(err, JournalError::OutOfOrderAppend { .. }));
}

#[test]
fn corruption_in_sealed_segment_is_an_error() {
    let mut storage = SimStorage::new();
    {
        let mut rec = open(&mut storage, 200); // force at least 2 segments
        for i in 1..=30u64 {
            rec.journal.append(&mut storage, &frame(i, b"0123456789abcdef")).unwrap();
        }
    }
    let segs = segments(&storage);
    assert!(segs.len() >= 2);
    // Flip a byte in the middle of the FIRST (sealed) segment's frames.
    let mut corrupted = storage.read(&segs[0]).unwrap();
    corrupted[SEGMENT_HEADER_LEN + 40] ^= 0xFF;
    overwrite(&mut storage, &segs[0], &corrupted);

    let mut config = JournalConfig::new(DIR);
    config.segment_bytes = 200;
    let err = Journal::open_with(config, &mut storage)
        .err()
        .expect("must refuse corrupt sealed segment");
    assert!(matches!(
        err,
        JournalError::Corrupt { .. } | JournalError::NonContiguousSeq { .. }
    ));
}

#[test]
fn compaction_keeps_what_a_cutoff_needs() {
    let mut storage = SimStorage::new();
    let mut rec = open(&mut storage, 256);
    for i in 1..=50u64 {
        rec.journal.append(&mut storage, &frame(i, b"0123456789abcdef")).unwrap();
    }
    let before = rec.journal.segment_count(&storage);
    let removed = rec.journal.compact_below(&mut storage, SeqNo(30)).unwrap();
    assert!(removed > 0);
    assert_eq!(rec.journal.segment_count(&storage) as u64, before as u64 - removed);
    drop(rec);
    let rec = open(&mut storage, 256);
    assert!(rec.first_seq <= SeqNo(30) && rec.first_seq > SeqNo(1));
    assert_eq!(rec.journal.last_seq(), SeqNo(50));
}

const SNAPS: &[u8] = b"/snaps";

fn snap_path(seq: u64) -> Vec<u8> {
    format!("/snaps/{seq:020}.snap").into_bytes()
}

#[test]
fn write_and_load_latest() {
    let mut storage = SimStorage::new();
    let store = SnapshotStore::new(SNAPS);
    store.write(&mut storage, SeqNo(10), 0, b"state-at-10").unwrap();
    store.write(&mut storage, SeqNo(20), 0, b"state-at-20").unwrap();
    store.write(&mut storage, SeqNo(30), 0, b"state-at-30").unwrap();

    let snap = store.load_latest(&storage, SeqNo(25)).unwrap().unwrap();
    assert_eq!(snap.seq, SeqNo(20));
    assert_eq!(snap.payload, b"state-at-20");

    let snap = store.load_latest(&storage, SeqNo(1000)).unwrap().unwrap();
    assert_eq!(snap.seq, SeqNo(30));

    assert!(store.load_latest(&storage, SeqNo(5)).unwrap().is_none());
}

#[test]
fn corrupt_snapshot_is_skipped_not_fatal() {
    let mut storage = SimStorage::new();
    let store = SnapshotStore::new(SNAPS);
    store.write(&mut storage, SeqNo(10), 0, b"good-old").unwrap();
    store.write(&mut storage, SeqNo(20), 0, b"soon-corrupt").unwrap();

    // Flip a payload byte in the newest snapshot.
    let path = snap_path(20);
    let mut bytes = storage.read(&path).unwrap();
    bytes[SNAPSHOT_HEADER_LEN + 2] ^= 0xFF;
    overwrite(&mut storage, &path, &bytes);

    let snap = store.load_latest(&storage, SeqNo(100)).unwrap().unwrap();
    assert_eq!(snap.seq, SeqNo(10), "must fall back to the older snapshot");
    assert_eq!(snap.payload, b"good-old");
}

#[test]
fn torn_snapshot_is_skipped() {
    let mut storage = SimStorage::new();
    let store = SnapshotStore::new(SNAPS);
    store.write(&mut storage, SeqNo(10), 0, b"whole").unwrap();
    let path = snap_path(10);
    let len = storage.read(&path).unwrap().len() as u64;
    storage.truncate(&path, len - 2).unwrap();
    assert!(store.load_latest(&storage, SeqNo(100)).unwrap().is_none());
}

#[test]
fn pruning_keeps_the_newest_and_purging_drops_the_future() {
    let mut storage = SimStorage::new();
    let store = SnapshotStore::new(SNAPS);
    for seq in [10, 20, 30, 40] {
        store.write(&mut storage, SeqNo(seq), 0, b"x").unwrap();
    }
    assert_eq!(store.high_water_seq(&storage).unwrap(), SeqNo(40));
    store.purge_after(&mut storage, SeqNo(35)).unwrap();
    assert_eq!(store.high_water_seq(&storage).unwrap(), SeqNo(30));
    store.prune_keep_newest(&mut storage, 2).unwrap();
    assert_eq!(storage.list_dir(SNAPS).unwrap().len(), 2);
    assert!(store.load_latest(&storage, SeqNo(15)).unwrap().is_none());
}

#[test]
fn a_batch_is_appended_whole_or_not_at_all() {
    let mut storage = SimStorage::new();
    let mut rec = open(&mut storage, 1 << 20);
    rec.journal.append_batch(&mut storage, &vec![]).unwrap();
    rec.journal
        .append_batch(&mut storage, &vec![frame(1, b"a"), frame(2, b"b"), frame(3, b"c")])
        .unwrap();
    assert_eq!(rec.journal.last_seq(), SeqNo(3));

    let err = rec
        .journal
        .append_batch(&mut storage, &vec![frame(4, b"d"), frame(6, b"gap"), frame(7, b"e")])
        .unwrap_err();
    assert!(matches!(
        err,
        JournalError::OutOfOrderAppend { expected: SeqNo(5), found: SeqNo(6) }
    ));
    assert_eq!(rec.journal.last_seq(), SeqNo(3));

    let rec = open(&mut storage, 1 << 20);
    assert_eq!(rec.frames.len(), 3);
    assert_eq!(rec.frames[2].payload, b"c");
}

#[test]
fn reading_goes_on_behind_intact_frames() {
    let mut body = Vec::new();
    frame(4, b"first").write_to(&mut body);
    let clean = body.len();
    let (frames, used, _) = scan_segment(&body, 4);
    assert_eq!((frames.len(), used), (1, clean));

    frame(5, b"second").write_to(&mut body);
    let (frames, used, _) = scan_segment(&body, 4);
    assert_eq!((frames.len(), used), (2, body.len()));
    assert_eq!(frames[1].payload, b"second");

    // What is torn behind them is not read.
    body.extend_from_slice(&[0xAB; 7]);
    let (frames, used, _) = scan_segment(&body, 4);
    assert_eq!((frames.len(), used), (2, body.len() - 7));
}

#[test]
fn the_last_seq_is_never_used() {
    let mut disk = SimStorage::new();
    let mut rec = Journal::open_with(JournalConfig::new(b"/j"), &mut disk).unwrap();
    rec.journal.reseat_to(&mut disk, SeqNo(u64::MAX - 1)).unwrap();
    let frame = |seq: u64| Frame::new(SeqNo(seq), Timestamp(1), 1, FrameKind::Tick, vec![]);
    rec.journal.append(&mut disk, &frame(u64::MAX - 1)).unwrap();
    assert!(matches!(
        rec.journal.append(&mut disk, &frame(u64::MAX)),
        Err(JournalError::SeqExhausted)
    ));
}

#[test]
fn only_group_commit_has_windows() {
    assert!(!FsyncPolicy::Micros(100).window_over(99));
    assert!(FsyncPolicy::Micros(100).window_over(100));
    assert!(FsyncPolicy::Micros(0).window_over(0));
    assert!(!FsyncPolicy::EveryFrame.window_over(100));
    assert!(!FsyncPolicy::Never.window_over(100));
}

#[test]
fn a_window_of_nothing_syncs_every_frame() {
    let mut disk = SimStorage::new();
    let mut config = JournalConfig::new(b"/j");
    config.fsync = FsyncPolicy::Micros(0);
    let mut rec = Journal::open_with(config, &mut disk).unwrap();
    let frame = Frame::new(SeqNo(1), Timestamp(1), 1, FrameKind::Tick, vec![]);
    rec.journal.append(&mut disk, &frame).unwrap();
    disk.crash(&mut Rng::new(1), false);
    let rec = Journal::open_with(JournalConfig::new(b"/j"), &mut disk).unwrap();
    assert_eq!(rec.frames.len(), 1);
}
