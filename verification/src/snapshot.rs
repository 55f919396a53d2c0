//! The snapshot store: durable, CRC-checked snapshots of service state at a
//! specific seq, enabling fast recovery.
//!
//! Snapshots live alongside the journal segments as `{seq:020}.snap` files:
//!
//! ```text
//!  offset size field
//!    0     4   magic          TKTS
//!    4     4   format_version u32
//!    8     8   seq            u64  the seq this snapshot captures
//!   16     8   epoch          u64
//!   24     4   payload_len    u32
//!   28     4   header_crc     u32  CRC32C of bytes [0,28)
//!   32   ...   payload             encoded state
//!   ..     4   payload_crc    u32  CRC32C of payload
//! ```
//!
//! Snapshots are an optimization, never the system of record: a corrupt or
//! torn snapshot is skipped.

use vstd::prelude::*;
use vstd::slice::slice_subrange;

use crate::crc32c::crc32c;
use crate::journal::JournalError;
use crate::le::{get_le, put_le};
use crate::listing::sorted_listing;
use crate::paths::{copy_bytes, numbered_path, parse_stem, snap_extension};
use crate::seq::SeqNo;
use crate::storage::{DiskModel, FileModel, IoError, Storage, StorageFile};

verus! {

broadcast use crate::le::lemma_le_bytes_len;

/// magic(4) + version(4) + seq(8) + epoch(8) + payload_len(4) + crc(4)
pub const SNAPSHOT_HEADER_LEN: usize = 32;

/// What a snapshot file holds.
#[verifier::ext_equal]
pub struct SnapshotModel {
    pub seq: u64,
    pub epoch: u64,
    pub payload: Seq<u8>,
}

/// `TKTS`, the first bytes of every snapshot.
pub open spec fn snapshot_magic() -> Seq<u8> {
    seq![0x54u8, 0x4Bu8, 0x54u8, 0x53u8]
}

impl SnapshotModel {
    /// The part of the header that the header CRC covers.
    pub open spec fn head(self) -> Seq<u8> {
        snapshot_magic() + crate::le::le_bytes(1, 4) + crate::le::le_bytes(self.seq as nat, 8)
            + crate::le::le_bytes(self.epoch as nat, 8) + crate::le::le_bytes(
            self.payload.len(),
            4,
        )
    }

    /// The bytes of the snapshot file.
    #[verifier::opaque]
    pub open spec fn file(self) -> Seq<u8> {
        self.head() + crate::frame::crc_bytes(self.head()) + self.payload
            + crate::frame::crc_bytes(self.payload)
    }
}

/// What a snapshot file's bytes read as; nothing where they are unusable.
#[verifier::opaque]
pub open spec fn read_snapshot(bytes: Seq<u8>) -> Option<SnapshotModel> {
    let len = crate::frame::field(bytes, 24, 28) as int;
    let payload = bytes.subrange(32, 32 + len);
    if bytes.len() < 36 || bytes.take(4) != snapshot_magic() {
        None
    } else if crate::frame::field(bytes, 4, 8) != 1 {
        None
    } else if crate::crc32c::checksum(bytes.take(28)) as nat != crate::frame::field(
        bytes,
        28,
        32,
    ) {
        None
    } else if bytes.len() < 32 + len + 4 {
        None
    } else if crate::crc32c::checksum(payload) as nat != crate::frame::field(
        bytes,
        32 + len,
        32 + len + 4,
    ) {
        None
    } else {
        Some(
            SnapshotModel {
                seq: crate::frame::field(bytes, 8, 16) as u64,
                epoch: crate::frame::field(bytes, 16, 24) as u64,
                payload,
            },
        )
    }
}

/// A snapshot file reads back as what was written.
pub proof fn law_snapshot_roundtrip(s: SnapshotModel)
    requires
        s.payload.len() <= u32::MAX,
    ensures
        read_snapshot(s.file()) == Some(s),
{
    reveal(SnapshotModel::file);
    reveal(read_snapshot);
    let b = s.file();
    let h = s.head();
    let len = s.payload.len() as int;
    crate::le::lemma_pow256_values();
    assert(b.take(28) =~= h);
    assert(b.take(4) =~= snapshot_magic());
    assert(b.subrange(4, 8) =~= crate::le::le_bytes(1, 4));
    assert(b.subrange(8, 16) =~= crate::le::le_bytes(s.seq as nat, 8));
    assert(b.subrange(16, 24) =~= crate::le::le_bytes(s.epoch as nat, 8));
    assert(b.subrange(24, 28) =~= crate::le::le_bytes(s.payload.len(), 4));
    assert(b.subrange(28, 32) =~= crate::frame::crc_bytes(h));
    crate::le::law_le_value_of_bytes(1, 4);
    crate::le::law_le_value_of_bytes(s.seq as nat, 8);
    crate::le::law_le_value_of_bytes(s.epoch as nat, 8);
    crate::le::law_le_value_of_bytes(s.payload.len(), 4);
    crate::le::law_le_value_of_bytes(crate::crc32c::checksum(h) as nat, 4);
    crate::le::law_le_value_of_bytes(crate::crc32c::checksum(s.payload) as nat, 4);
    assert(b.subrange(32, 32 + len) =~= s.payload);
    assert(b.subrange(32 + len, 32 + len + 4) =~= crate::frame::crc_bytes(s.payload));
}

/// A snapshot file cut short is never used.
pub proof fn law_torn_snapshot_is_skipped(s: SnapshotModel, cut: int)
    requires
        s.payload.len() <= u32::MAX,
        0 <= cut < s.file().len(),
    ensures
        read_snapshot(s.file().take(cut)) is None,
{
    law_snapshot_roundtrip(s);
    reveal(SnapshotModel::file);
    reveal(read_snapshot);
    let b = s.file();
    let t = b.take(cut);
    if cut >= 36 {
        assert(t.subrange(24, 28) =~= b.subrange(24, 28));
        crate::le::lemma_pow256_values();
        assert(b.subrange(24, 28) =~= crate::le::le_bytes(s.payload.len(), 4));
        crate::le::law_le_value_of_bytes(s.payload.len(), 4);
    }
}

/// A snapshot file with any one byte changed is never used.
pub proof fn law_corrupt_snapshot_is_skipped(s: SnapshotModel, i: int, byte: u8)
    requires
        s.payload.len() <= u32::MAX,
        0 <= i < s.file().len(),
        s.file()[i] != byte,
    ensures
        read_snapshot(s.file().update(i, byte)) is None,
{
    law_snapshot_roundtrip(s);
    reveal(SnapshotModel::file);
    reveal(read_snapshot);
    let good = s.file();
    let bad = good.update(i, byte);
    let len = s.payload.len() as int;
    crate::le::lemma_pow256_values();
    assert(good.subrange(24, 28) =~= crate::le::le_bytes(s.payload.len(), 4));
    crate::le::law_le_value_of_bytes(s.payload.len(), 4);
    if i < 28 {
        assert(bad.take(28) =~= good.take(28).update(i, byte));
        crate::crc32c::law_single_byte_change_is_detected(good.take(28), i, byte);
        assert(bad.subrange(28, 32) =~= good.subrange(28, 32));
    } else if i < 32 {
        assert(bad.take(28) =~= good.take(28));
        let a = good.subrange(28, 32);
        let b = bad.subrange(28, 32);
        assert(a[i - 28] != b[i - 28]);
        crate::le::law_le_bytes_of_value(a);
        crate::le::law_le_bytes_of_value(b);
    } else {
        assert(bad.subrange(24, 28) =~= good.subrange(24, 28));
        let gp = good.subrange(32, 32 + len);
        let bp = bad.subrange(32, 32 + len);
        let gc = good.subrange(32 + len, 32 + len + 4);
        let bc = bad.subrange(32 + len, 32 + len + 4);
        if i < 32 + len {
            assert(bp =~= gp.update(i - 32, byte));
            crate::crc32c::law_single_byte_change_is_detected(gp, i - 32, byte);
            assert(bc =~= gc);
        } else {
            assert(bp =~= gp);
            assert(gc[i - 32 - len] != bc[i - 32 - len]);
            crate::le::law_le_bytes_of_value(gc);
            crate::le::law_le_bytes_of_value(bc);
        }
    }
}

/// A validated snapshot loaded from disk.
#[derive(Debug)]
pub struct LoadedSnapshot {
    pub seq: SeqNo,
    pub epoch: u64,
    /// Encoded state (CRC-verified).
    pub payload: Vec<u8>,
}

impl View for LoadedSnapshot {
    type V = SnapshotModel;

    open spec fn view(&self) -> SnapshotModel {
        SnapshotModel { seq: self.seq.0, epoch: self.epoch, payload: self.payload@ }
    }
}

/// Validates and parses snapshot bytes; `None` means unusable.
pub fn parse_snapshot(bytes: &[u8]) -> (r: Option<LoadedSnapshot>)
    ensures
        match r {
            Some(s) => read_snapshot(bytes@) == Some(s@),
            None => read_snapshot(bytes@) is None,
        },
{
    proof {
        reveal(read_snapshot);
        crate::le::lemma_pow256_values();
    }
    if bytes.len() < SNAPSHOT_HEADER_LEN + 4 {
        return None;
    }
    proof {
        crate::le::lemma_le_value_bound(bytes@.subrange(4, 8));
        crate::le::lemma_le_value_bound(bytes@.subrange(8, 16));
        crate::le::lemma_le_value_bound(bytes@.subrange(16, 24));
        crate::le::lemma_le_value_bound(bytes@.subrange(24, 28));
        assert(bytes@.subrange(0, 28) =~= bytes@.take(28));
    }
    if bytes[0] != 0x54 || bytes[1] != 0x4B || bytes[2] != 0x54 || bytes[3] != 0x53 {
        assert(bytes@.take(4)[0] == bytes@[0] && bytes@.take(4)[1] == bytes@[1]
            && bytes@.take(4)[2] == bytes@[2] && bytes@.take(4)[3] == bytes@[3]);
        return None;
    }
    assert(bytes@.take(4) =~= snapshot_magic());
    if get_le(slice_subrange(bytes, 4, 8)) != 1 {
        return None;
    }
    let stored_header_crc: u128 = get_le(slice_subrange(bytes, 28, 32));
    if crc32c(slice_subrange(bytes, 0, 28)) as u128 != stored_header_crc {
        return None;
    }
    let seq = SeqNo(get_le(slice_subrange(bytes, 8, 16)) as u64);
    let epoch: u64 = get_le(slice_subrange(bytes, 16, 24)) as u64;
    let payload_len: u64 = get_le(slice_subrange(bytes, 24, 28)) as u64;
    if (bytes.len() as u64) < 36 + payload_len {
        return None;
    }
    let end: usize = SNAPSHOT_HEADER_LEN + payload_len as usize;
    let content = slice_subrange(bytes, SNAPSHOT_HEADER_LEN, end);
    let stored_payload_crc: u128 = get_le(slice_subrange(bytes, end, end + 4));
    if crc32c(content) as u128 != stored_payload_crc {
        return None;
    }
    Some(LoadedSnapshot { seq, epoch, payload: copy_bytes(content) })
}

/// The snapshot files in `dir`, sorted.
pub open spec fn snapshot_files(disk: DiskModel, dir: Seq<u8>) -> Seq<Seq<u8>> {
    crate::listing::listing(disk, dir, crate::paths::snap_ext())
}

/// The seq that a snapshot's file name gives.
pub open spec fn snap_number(path: Seq<u8>, dir: Seq<u8>) -> Option<u64> {
    crate::paths::stem_number(crate::paths::stem(path, dir.len(), 4))
}

/// The usable snapshots among the first `k` of `paths` with a seq of at most
/// `max`, the last file first.
pub open spec fn usable(
    paths: Seq<Seq<u8>>,
    files: Map<Seq<u8>, FileModel>,
    max: u64,
    k: nat,
) -> Seq<SnapshotModel>
    decreases k,
{
    if k == 0 {
        Seq::empty()
    } else {
        let rest = usable(paths, files, max, (k - 1) as nat);
        match read_snapshot(files[paths[k - 1]].content()) {
            Some(s) => if s.seq <= max {
                seq![s] + rest
            } else {
                rest
            },
            None => rest,
        }
    }
}

/// The usable snapshots in `dir` with a seq of at most `max`, newest file first.
pub open spec fn candidates(disk: DiskModel, dir: Seq<u8>, max: u64) -> Seq<SnapshotModel> {
    usable(snapshot_files(disk, dir), disk.files, max, snapshot_files(disk, dir).len())
}

/// Every snapshot file is named by the seq of the snapshot it holds, as
/// [`SnapshotStore::write`] names it.
pub open spec fn named_by_seq(disk: DiskModel, dir: Seq<u8>) -> bool {
    forall|i: int|
        0 <= i < snapshot_files(disk, dir).len() ==> (read_snapshot(
            disk.files[#[trigger] snapshot_files(disk, dir)[i]].content(),
        ) matches Some(s) ==> snapshot_files(disk, dir)[i] == crate::paths::numbered(
            dir,
            s.seq,
            crate::paths::snap_ext(),
        ))
}

/// A snapshot that was written is what [`SnapshotStore::load_latest`] finds for
/// its seq, whatever other snapshots are there.
pub proof fn law_written_snapshot_is_loaded(disk: DiskModel, dir: Seq<u8>, s: SnapshotModel)
    requires
        s.payload.len() <= u32::MAX,
        crate::paths::is_listing(
            snapshot_files(disk, dir),
            crate::listing::wanted(disk, dir, crate::paths::snap_ext()),
        ),
        named_by_seq(disk, dir),
        disk.has(crate::paths::numbered(dir, s.seq, crate::paths::snap_ext())),
        disk.files[crate::paths::numbered(dir, s.seq, crate::paths::snap_ext())].content()
            == s.file(),
    ensures
        candidates(disk, dir, s.seq).len() > 0,
        candidates(disk, dir, s.seq)[0] == s,
{
    let ext = crate::paths::snap_ext();
    let paths = snapshot_files(disk, dir);
    let path = crate::paths::numbered(dir, s.seq, ext);
    crate::paths::lemma_numbered(dir, s.seq, ext);
    assert(crate::listing::wanted(disk, dir, ext)(path));
    let at = choose|i: int| 0 <= i < paths.len() && paths[i] == path;
    law_snapshot_roundtrip(s);
    lemma_usable_front(disk, dir, s, at, paths.len());
}

/// The same after power loss: what [`SnapshotStore::write`] returned from is
/// durable.
pub proof fn law_written_snapshot_survives(
    before: DiskModel,
    after: DiskModel,
    dir: Seq<u8>,
    s: SnapshotModel,
    torn: bool,
)
    requires
        s.payload.len() <= u32::MAX,
        before.has(crate::paths::numbered(dir, s.seq, crate::paths::snap_ext())),
        before.files[crate::paths::numbered(dir, s.seq, crate::paths::snap_ext())] == (FileModel {
            synced: s.file(),
            unsynced: Seq::empty(),
        }),
        after.has(crate::paths::numbered(dir, s.seq, crate::paths::snap_ext())),
        crate::sim_storage::survives(
            before.files[crate::paths::numbered(dir, s.seq, crate::paths::snap_ext())],
            after.files[crate::paths::numbered(dir, s.seq, crate::paths::snap_ext())],
            torn,
        ),
        crate::paths::is_listing(
            snapshot_files(after, dir),
            crate::listing::wanted(after, dir, crate::paths::snap_ext()),
        ),
        named_by_seq(after, dir),
    ensures
        candidates(after, dir, s.seq).len() > 0,
        candidates(after, dir, s.seq)[0] == s,
{
    let path = crate::paths::numbered(dir, s.seq, crate::paths::snap_ext());
    crate::durability::lemma_synced_file_survives(before.files[path], after.files[path], torn);
    assert(before.files[path].content() =~= s.file());
    law_written_snapshot_is_loaded(after, dir, s);
}

/// Behind the file of a snapshot come none that are usable up to its seq.
proof fn lemma_usable_front(disk: DiskModel, dir: Seq<u8>, s: SnapshotModel, at: int, k: nat)
    requires
        crate::paths::is_listing(
            snapshot_files(disk, dir),
            crate::listing::wanted(disk, dir, crate::paths::snap_ext()),
        ),
        named_by_seq(disk, dir),
        0 <= at < k <= snapshot_files(disk, dir).len(),
        snapshot_files(disk, dir)[at] == crate::paths::numbered(
            dir,
            s.seq,
            crate::paths::snap_ext(),
        ),
        read_snapshot(disk.files[snapshot_files(disk, dir)[at]].content()) == Some(s),
    ensures
        ({
            let all = usable(snapshot_files(disk, dir), disk.files, s.seq, k);
            all.len() > 0 && all[0] == s
        }),
    decreases k,
{
    let ext = crate::paths::snap_ext();
    let paths = snapshot_files(disk, dir);
    let path = paths[at];
    if at < k - 1 {
        lemma_usable_front(disk, dir, s, at, (k - 1) as nat);
        let last = paths[k - 1];
        assert(crate::paths::sorts_before(path, last));
        if let Some(x) = read_snapshot(disk.files[last].content()) {
            if x.seq <= s.seq {
                assert(last == crate::paths::numbered(dir, x.seq, ext));
                if x.seq < s.seq {
                    crate::paths::lemma_numbered_sorts(dir, x.seq, s.seq, ext);
                    crate::paths::lemma_sorts_transitive(path, last, path);
                }
                crate::paths::lemma_sorts_irreflexive(path);
            }
        }
    }
}

/// The highest seq that a file name among the first `k` of `paths` gives.
pub open spec fn highest(paths: Seq<Seq<u8>>, dir: Seq<u8>, k: nat) -> u64
    decreases k,
{
    if k == 0 {
        0
    } else {
        let rest = highest(paths, dir, (k - 1) as nat);
        match snap_number(paths[k - 1], dir) {
            Some(n) => if n > rest {
                n
            } else {
                rest
            },
            None => rest,
        }
    }
}

/// A snapshot file named for a seq above `max`.
pub open spec fn stale(disk: DiskModel, dir: Seq<u8>, max: u64, p: Seq<u8>) -> bool {
    &&& crate::listing::wanted(disk, dir, crate::paths::snap_ext())(p)
    &&& snap_number(p, dir) matches Some(n) && n > max
}

/// The disk without the snapshots whose names give a seq beyond `max`.
pub open spec fn purged(disk: DiskModel, dir: Seq<u8>, max: u64) -> DiskModel {
    DiskModel {
        files: disk.files.remove_keys(Set::new(|p: Seq<u8>| stale(disk, dir, max, p))),
        epoch: disk.epoch,
    }
}

/// The snapshot files whose names give a seq, in order.
pub open spec fn numbered_files(paths: Seq<Seq<u8>>, dir: Seq<u8>) -> Seq<Seq<u8>> {
    paths.filter(|p: Seq<u8>| snap_number(p, dir) is Some)
}

/// Reads and writes `.snap` files in a directory.
#[derive(Debug)]
pub struct SnapshotStore {
    dir: Vec<u8>,
}

impl SnapshotStore {
    pub closed spec fn dir(&self) -> Seq<u8> {
        self.dir@
    }

    pub fn new(dir: &[u8]) -> (r: Self)
        ensures
            r.dir() == dir@,
    {
        SnapshotStore { dir: copy_bytes(dir) }
    }

    /// Durably writes a snapshot of state at `seq`. The file is fully synced
    /// before this returns, so callers may safely advertise its existence.
    pub fn write<St: Storage>(
        &self,
        storage: &mut St,
        seq: SeqNo,
        epoch: u64,
        payload: &[u8],
    ) -> (r: Result<(), JournalError>)
        requires
            payload@.len() <= u32::MAX,
        ensures
            final(storage).reliable() == old(storage).reliable(),
            ({
                let path = crate::paths::numbered(self.dir(), seq.0, crate::paths::snap_ext());
                &&& r is Ok ==> !old(storage).view().has(path) && final(storage).view() == old(
                    storage,
                ).view().with(
                    path,
                    FileModel {
                        synced: (SnapshotModel { seq: seq.0, epoch, payload: payload@ }).file(),
                        unsynced: Seq::empty(),
                    },
                )
                &&& r is Err ==> final(storage).view().files.remove(path) == old(
                    storage,
                ).view().files.remove(path) && final(storage).view().epoch == old(
                    storage,
                ).view().epoch
                &&& old(storage).view().has(path) ==> final(storage).view() == old(storage).view()
                    && r == Err::<(), JournalError>(JournalError::Io(IoError::AlreadyExists))
                &&& old(storage).reliable() ==> (r is Ok <==> !old(storage).view().has(path))
            }),
            r matches Err(e) ==> e is Io,
    {
        let ext = snap_extension();
        let path = numbered_path(self.dir.as_slice(), seq.0, ext.as_slice());
        let ghost model = SnapshotModel { seq: seq.0, epoch, payload: payload@ };
        proof {
            reveal(SnapshotModel::file);
        }
        let mut bytes: Vec<u8> = vec![0x54u8, 0x4Bu8, 0x54u8, 0x53u8];
        put_le(&mut bytes, 1, 4);
        put_le(&mut bytes, seq.0 as u128, 8);
        put_le(&mut bytes, epoch as u128, 8);
        put_le(&mut bytes, payload.len() as u128, 4);
        assert(bytes@ =~= model.head());
        let header_crc: u32 = crc32c(bytes.as_slice());
        put_le(&mut bytes, header_crc as u128, 4);
        bytes.extend_from_slice(payload);
        let payload_crc: u32 = crc32c(payload);
        put_le(&mut bytes, payload_crc as u128, 4);
        assert(bytes@ =~= model.file());
        let ghost before = storage.view();
        let mut file = match storage.create_new(path.as_slice()) {
            Ok(f) => f,
            Err(e) => {
                return Err(JournalError::Io(e));
            },
        };
        let done = file.write_all(storage, bytes.as_slice());
        assert(storage.view().files.remove(path@) =~= before.files.remove(path@));
        if let Err(e) = done {
            return Err(JournalError::Io(e));
        }
        proof {
            assert(bytes@.take(bytes@.len() as int) =~= bytes@);
            assert(Seq::<u8>::empty() + bytes@ =~= bytes@);
            assert(storage.view().files =~= before.files.insert(
                path@,
                FileModel { synced: Seq::empty(), unsynced: bytes@ },
            ));
        }
        let done = file.sync_data(storage);
        assert(storage.view().files.remove(path@) =~= before.files.remove(path@));
        if let Err(e) = done {
            return Err(JournalError::Io(e));
        }
        assert(storage.view().files =~= before.files.insert(
            path@,
            FileModel { synced: bytes@, unsynced: Seq::empty() },
        ));
        if let Err(e) = storage.sync_dir(self.dir.as_slice()) {
            return Err(JournalError::Io(e));
        }
        Ok(())
    }

    /// Loads every usable snapshot with `seq <= max_seq`, newest first.
    /// Corrupt, torn, or future-versioned snapshot files are skipped, and so
    /// are files that cannot be read.
    pub fn load_candidates<St: Storage>(&self, storage: &St, max_seq: SeqNo) -> (r: Result<
        Vec<LoadedSnapshot>,
        JournalError,
    >)
        ensures
            r matches Err(e) ==> e is Io,
            r is Ok <==> storage.listable(self.dir()),
            r is Ok ==> crate::paths::is_listing(
                snapshot_files(storage.view(), self.dir()),
                crate::listing::wanted(storage.view(), self.dir(), crate::paths::snap_ext()),
            ),
            r matches Ok(found) ==> forall|i: int|
                0 <= i < found@.len() ==> candidates(
                    storage.view(),
                    self.dir(),
                    max_seq.0,
                ).contains((#[trigger] found@[i])@),
            storage.reliable() ==> {
                &&& r is Ok
                &&& r->Ok_0@.map_values(|s: LoadedSnapshot| s@) == candidates(
                    storage.view(),
                    self.dir(),
                    max_seq.0,
                )
            },
    {
        let ghost disk = storage.view();
        let ghost paths = snapshot_files(disk, self.dir@);
        let ext = snap_extension();
        let list = match sorted_listing(storage, self.dir.as_slice(), ext.as_slice()) {
            Ok(l) => l,
            Err(e) => {
                return Err(JournalError::Io(e));
            },
        };
        assert(list@.map_values(|p: Vec<u8>| p@) == paths);
        let mut found: Vec<LoadedSnapshot> = Vec::new();
        let mut i: usize = list.len();
        let ghost all = candidates(disk, self.dir@, max_seq.0);
        assert(found@.map_values(|s: LoadedSnapshot| s@) =~= Seq::<SnapshotModel>::empty());
        assert(Seq::<SnapshotModel>::empty() + all =~= all);
        while i > 0
            invariant
                i <= list@.len(),
                list@.map_values(|p: Vec<u8>| p@) == paths,
                disk == storage.view(),
                paths == snapshot_files(disk, self.dir@),
                crate::paths::is_listing(
                    paths,
                    crate::listing::wanted(disk, self.dir@, crate::paths::snap_ext()),
                ),
                all == candidates(disk, self.dir@, max_seq.0),
                storage.reliable() ==> all == found@.map_values(|s: LoadedSnapshot| s@) + usable(
                    paths,
                    disk.files,
                    max_seq.0,
                    i as nat,
                ),
                forall|k: int| 0 <= k < found@.len() ==> all.contains((#[trigger] found@[k])@),
                forall|s: SnapshotModel|
                    usable(paths, disk.files, max_seq.0, i as nat).contains(s)
                        ==> #[trigger] all.contains(s),
            decreases i,
        {
            let ghost here = usable(paths, disk.files, max_seq.0, i as nat);
            i = i - 1;
            let ghost rest = usable(paths, disk.files, max_seq.0, i as nat);
            let path = list[i].as_slice();
            assert(path@ == paths[i as int]);
            assert(crate::listing::wanted(disk, self.dir@, crate::paths::snap_ext())(
                paths[i as int],
            ));
            proof {
                assert forall|s: SnapshotModel| rest.contains(s) implies #[trigger] all.contains(
                    s,
                ) by {
                    let k = choose|k: int| 0 <= k < rest.len() && rest[k] == s;
                    if here.len() == rest.len() {
                        assert(here[k] == s);
                    } else {
                        assert(here[k + 1] == s);
                    }
                    assert(here.contains(s));
                }
            }
            if let Ok(bytes) = storage.read(path) {
                if let Some(snap) = parse_snapshot(bytes.as_slice()) {
                    if snap.seq.0 <= max_seq.0 {
                        let ghost before = found@;
                        let ghost model = snap@;
                        assert(here == seq![model] + rest);
                        assert(here[0] == model);
                        assert(here.contains(model));
                        found.push(snap);
                        proof {
                            let views = found@.map_values(|s: LoadedSnapshot| s@);
                            let old_views = before.map_values(|s: LoadedSnapshot| s@);
                            assert(views =~= old_views.push(model));
                            assert(old_views + (seq![model] + rest) =~= views + rest);
                        }
                    }
                }
            }
        }
        assert(found@.map_values(|s: LoadedSnapshot| s@) + Seq::<SnapshotModel>::empty()
            =~= found@.map_values(|s: LoadedSnapshot| s@));
        Ok(found)
    }

    /// Loads the newest usable snapshot with `seq <= max_seq`.
    pub fn load_latest<St: Storage>(&self, storage: &St, max_seq: SeqNo) -> (r: Result<
        Option<LoadedSnapshot>,
        JournalError,
    >)
        ensures
            r matches Err(e) ==> e is Io,
            r is Ok <==> storage.listable(self.dir()),
            r matches Ok(Some(s)) ==> candidates(
                storage.view(),
                self.dir(),
                max_seq.0,
            ).contains(s@),
            storage.reliable() ==> {
                let all = candidates(storage.view(), self.dir(), max_seq.0);
                &&& r is Ok
                &&& match r->Ok_0 {
                    Some(s) => all.len() > 0 && s@ == all[0],
                    None => all.len() == 0,
                }
            },
    {
        let mut found = self.load_candidates(storage, max_seq)?;
        let ghost views = found@.map_values(|s: LoadedSnapshot| s@);
        if found.len() == 0 {
            assert(views.len() == 0);
            return Ok(None);
        }
        assert(views[0] == found@[0]@);
        let first = found.remove(0);
        Ok(Some(first))
    }

    /// The highest seq that a snapshot file is named for (the genesis
    /// sentinel if there is none).
    pub fn high_water_seq<St: Storage>(&self, storage: &St) -> (r: Result<SeqNo, JournalError>)
        ensures
            r matches Err(e) ==> e is Io,
            r matches Ok(s) ==> s.0 == highest(
                snapshot_files(storage.view(), self.dir()),
                self.dir(),
                snapshot_files(storage.view(), self.dir()).len(),
            ),
            storage.reliable() ==> r is Ok,
    {
        let ghost paths = snapshot_files(storage.view(), self.dir@);
        let ext = snap_extension();
        let list = match sorted_listing(storage, self.dir.as_slice(), ext.as_slice()) {
            Ok(l) => l,
            Err(e) => {
                return Err(JournalError::Io(e));
            },
        };
        assert(list@.map_values(|p: Vec<u8>| p@) == paths);
        let mut best: u64 = 0;
        let mut i: usize = 0;
        while i < list.len()
            invariant
                i <= list@.len(),
                list@.map_values(|p: Vec<u8>| p@) == paths,
                paths == snapshot_files(storage.view(), self.dir@),
                crate::paths::is_listing(
                    paths,
                    crate::listing::wanted(
                        storage.view(),
                        self.dir@,
                        crate::paths::snap_ext(),
                    ),
                ),
                best == highest(paths, self.dir@, i as nat),
            decreases list@.len() - i,
        {
            assert(list@[i as int]@ == paths[i as int]);
            assert(crate::listing::wanted(storage.view(), self.dir@, crate::paths::snap_ext())(
                paths[i as int],
            ));
            if let Some(n) = self.number_of(list[i].as_slice()) {
                if n > best {
                    best = n;
                }
            }
            i = i + 1;
        }
        Ok(SeqNo(best))
    }

    /// The seq that a snapshot file is named for.
    fn number_of(&self, path: &[u8]) -> (r: Option<u64>)
        requires
            crate::paths::is_child(path@, self.dir@),
            crate::paths::has_extension(path@, crate::paths::snap_ext()),
        ensures
            r == snap_number(path@, self.dir@),
    {
        let size: usize = path.len();
        proof {
            let cut = size - 5;
            let d = self.dir@.len() as int;
            assert(path@.len() > d + 1);
            if cut < d {
                assert(path@.skip(cut + 1)[d - cut - 1] == path@[d]);
            }
        }
        let name = slice_subrange(path, self.dir.len() + 1, size - 5);
        parse_stem(name)
    }

    /// Deletes every snapshot with `seq > max_seq`.
    ///
    /// A crash that truncates the journal below a snapshot's seq leaves that
    /// snapshot describing a history that no longer exists; recovery calls
    /// this before anything new is written.
    pub fn purge_after<St: Storage>(&self, storage: &mut St, max_seq: SeqNo) -> (r: Result<
        (),
        JournalError,
    >)
        ensures
            final(storage).reliable() == old(storage).reliable(),
            final(storage).view().epoch == old(storage).view().epoch,
            forall|p: Seq<u8>| #[trigger]
                final(storage).view().has(p) ==> old(storage).view().has(p) && final(storage).view().files[p] == old(storage).view().files[p],
            forall|p: Seq<u8>|
                old(storage).view().has(p) && !stale(old(storage).view(), self.dir(), max_seq.0, p)
                    ==> #[trigger] final(storage).view().has(p),
            r is Ok ==> final(storage).view() == purged(
                old(storage).view(),
                self.dir(),
                max_seq.0,
            ),
            r matches Err(e) ==> e is Io,
            old(storage).reliable() ==> r is Ok,
    {
        let ghost disk = storage.view();
        let ghost paths = snapshot_files(disk, self.dir@);
        let ghost ext_v = crate::paths::snap_ext();
        let ext = snap_extension();
        let list = match sorted_listing(&*storage, self.dir.as_slice(), ext.as_slice()) {
            Ok(l) => l,
            Err(e) => {
                return Err(JournalError::Io(e));
            },
        };
        assert(list@.map_values(|p: Vec<u8>| p@) == paths);
        let mut i: usize = 0;
        while i < list.len()
            invariant
                i <= list@.len(),
                disk == old(storage).view(),
                list@.map_values(|p: Vec<u8>| p@) == paths,
                paths == snapshot_files(disk, self.dir@),
                ext_v == crate::paths::snap_ext(),
                crate::paths::is_listing(paths, crate::listing::wanted(disk, self.dir@, ext_v)),
                storage.reliable() == old(storage).reliable(),
                storage.view().epoch == disk.epoch,
                forall|p: Seq<u8>| #[trigger]
                    storage.view().has(p) ==> disk.has(p) && storage.view().files[p]
                        == disk.files[p],
                forall|p: Seq<u8>|
                    disk.has(p) && !stale(disk, self.dir@, max_seq.0, p)
                        ==> #[trigger] storage.view().has(p),
                forall|k: int|
                    0 <= k < i && stale(disk, self.dir@, max_seq.0, paths[k])
                        ==> !storage.view().has(#[trigger] paths[k]),
                forall|k: int| i <= k < paths.len() ==> storage.view().has(#[trigger] paths[k]),
            decreases list@.len() - i,
        {
            let path = list[i].as_slice();
            assert(path@ == paths[i as int]);
            assert(crate::listing::wanted(disk, self.dir@, ext_v)(paths[i as int]));
            let stale_file: bool = match self.number_of(path) {
                Some(n) => n > max_seq.0,
                None => false,
            };
            assert(stale_file == stale(disk, self.dir@, max_seq.0, paths[i as int]));
            let ghost before = storage.view();
            if stale_file {
                if let Err(e) = storage.remove(path) {
                    return Err(JournalError::Io(e));
                }
                proof {
                    let now = storage.view();
                    assert forall|p: Seq<u8>| #[trigger] now.has(p) implies disk.has(p)
                        && now.files[p] == disk.files[p] by {
                        assert(before.has(p));
                    }
                    assert forall|p: Seq<u8>|
                        disk.has(p) && !stale(
                            disk,
                            self.dir@,
                            max_seq.0,
                            p,
                        ) implies #[trigger] now.has(p) by {
                        assert(before.has(p));
                    }
                    assert forall|k: int|
                        0 <= k < i + 1 && stale(
                            disk,
                            self.dir@,
                            max_seq.0,
                            paths[k],
                        ) implies !now.has(#[trigger] paths[k]) by {
                        assert(before.has(paths[k]) ==> k == i);
                    }
                    assert forall|k: int| i + 1 <= k < paths.len() implies storage.view().has(
                        #[trigger] paths[k],
                    ) by {
                        assert(crate::paths::sorts_before(paths[i as int], paths[k]));
                        crate::paths::lemma_sorts_irreflexive(paths[k]);
                    }
                }
            }
            i = i + 1;
        }
        proof {
            let now = storage.view();
            assert forall|p: Seq<u8>| stale(disk, self.dir@, max_seq.0, p) implies !(#[trigger] now.has(
                p,
            )) by {
                assert(crate::listing::wanted(disk, self.dir@, ext_v)(p));
                let k = choose|k: int| 0 <= k < paths.len() && paths[k] == p;
                assert(!now.has(paths[k]));
            }
            let left = purged(disk, self.dir@, max_seq.0);
            assert forall|p: Seq<u8>| #[trigger] now.files.dom().contains(p)
                == left.files.dom().contains(p) by {
                assert(now.has(p) == now.files.dom().contains(p));
                assert(disk.has(p) == disk.files.dom().contains(p));
            }
            assert forall|p: Seq<u8>| #[trigger] now.files.dom().contains(p) implies now.files[p]
                == left.files[p] by {
                assert(now.has(p));
            }
            assert(now.files =~= left.files);
        }
        if let Err(e) = storage.sync_dir(self.dir.as_slice()) {
            return Err(JournalError::Io(e));
        }
        Ok(())
    }

    /// Deletes all snapshots but the newest `keep`, going by the seqs in their
    /// names, and returns the seq of the oldest one that is left.
    pub fn prune_keep_newest<St: Storage>(&self, storage: &mut St, keep: usize) -> (r: Result<
        Option<SeqNo>,
        JournalError,
    >)
        ensures
            final(storage).reliable() == old(storage).reliable(),
            ({
                let disk = old(storage).view();
                let ours = numbered_files(snapshot_files(disk, self.dir()), self.dir());
                let cut = surplus(ours.len(), keep as nat);
                &&& crate::journal::cut_in_front(disk, final(storage).view(), ours, cut)
                &&& r matches Ok(oldest) ==> {
                    &&& crate::paths::is_listing(
                        snapshot_files(disk, self.dir()),
                        crate::listing::wanted(disk, self.dir(), crate::paths::snap_ext()),
                    )
                    &&& final(storage).view() == crate::journal::without_first(disk, ours, cut)
                    &&& match oldest {
                        Some(s) => cut < ours.len() && snap_number(ours[cut as int], self.dir())
                            == Some(s.0),
                        None => cut == ours.len(),
                    }
                }
            }),
            r matches Err(e) ==> e is Io,
            old(storage).reliable() ==> r is Ok,
    {
        let ghost disk = storage.view();
        let ghost dir = self.dir@;
        let ghost paths = snapshot_files(disk, dir);
        let ghost all_ours = numbered_files(paths, dir);
        let ghost pred = |p: Seq<u8>| snap_number(p, dir) is Some;
        assert(crate::journal::without_first(disk, all_ours, 0) == disk);
        let ext = snap_extension();
        let list = match sorted_listing(&*storage, self.dir.as_slice(), ext.as_slice()) {
            Ok(l) => l,
            Err(e) => {
                return Err(JournalError::Io(e));
            },
        };
        assert(list@.map_values(|p: Vec<u8>| p@) == paths);
        let mut ours: Vec<Vec<u8>> = Vec::new();
        let mut numbers: Vec<u64> = Vec::new();
        let mut i: usize = 0;
        proof {
            reveal(Seq::filter);
            assert(ours@.map_values(|p: Vec<u8>| p@) =~= paths.take(0).filter(pred));
        }
        while i < list.len()
            invariant
                i <= list@.len(),
                disk == storage.view(),
                dir == self.dir@,
                storage.reliable() == old(storage).reliable(),
                pred == (|p: Seq<u8>| snap_number(p, dir) is Some),
                list@.map_values(|p: Vec<u8>| p@) == paths,
                paths == snapshot_files(disk, dir),
                crate::paths::is_listing(
                    paths,
                    crate::listing::wanted(disk, dir, crate::paths::snap_ext()),
                ),
                ours@.map_values(|p: Vec<u8>| p@) == paths.take(i as int).filter(pred),
                numbers@.len() == ours@.len(),
                forall|k: int|
                    0 <= k < ours@.len() ==> snap_number(#[trigger] ours@[k]@, dir) == Some(
                        numbers@[k],
                    ) && disk.has(ours@[k]@) && (exists|j: int|
                        0 <= j < i && paths[j] == ours@[k]@),
                forall|a: int, b: int|
                    0 <= a < b < ours@.len() ==> #[trigger] crate::paths::sorts_before(
                        ours@[a]@,
                        ours@[b]@,
                    ),
            decreases list@.len() - i,
        {
            let path = list[i].as_slice();
            assert(path@ == paths[i as int]);
            assert(crate::listing::wanted(disk, dir, crate::paths::snap_ext())(paths[i as int]));
            let ghost before = ours@;
            proof {
                reveal(Seq::filter);
                let t = paths.take(i + 1);
                assert(t.drop_last() =~= paths.take(i as int));
                assert(t.last() == paths[i as int]);
            }
            if let Some(n) = self.number_of(path) {
                ours.push(copy_bytes(path));
                numbers.push(n);
                proof {
                    assert(ours@.map_values(|p: Vec<u8>| p@) =~= before.map_values(
                        |p: Vec<u8>| p@,
                    ).push(path@));
                    assert forall|a: int, b: int|
                        0 <= a < b < ours@.len() implies #[trigger] crate::paths::sorts_before(
                        ours@[a]@,
                        ours@[b]@,
                    ) by {
                        if b < before.len() {
                            assert(crate::paths::sorts_before(before[a]@, before[b]@));
                        } else {
                            assert(snap_number(before[a]@, dir) is Some);
                            let j = choose|j: int| 0 <= j < i && paths[j] == before[a]@;
                            assert(crate::paths::sorts_before(paths[j], paths[i as int]));
                        }
                    }
                    assert forall|k: int| 0 <= k < ours@.len() implies snap_number(
                        #[trigger] ours@[k]@,
                        dir,
                    ) == Some(numbers@[k]) && disk.has(ours@[k]@) && (exists|j: int|
                        0 <= j < i + 1 && paths[j] == ours@[k]@) by {
                        if k < before.len() {
                            assert(snap_number(before[k]@, dir) is Some);
                            let j = choose|j: int| 0 <= j < i && paths[j] == before[k]@;
                            assert(paths[j] == ours@[k]@);
                        } else {
                            assert(paths[i as int] == ours@[k]@);
                        }
                    }
                }
            } else {
                assert forall|k: int| 0 <= k < ours@.len() implies snap_number(
                    #[trigger] ours@[k]@,
                    dir,
                ) == Some(numbers@[k]) && disk.has(ours@[k]@) && (exists|j: int|
                    0 <= j < i + 1 && paths[j] == ours@[k]@) by {
                    let j = choose|j: int| 0 <= j < i && paths[j] == ours@[k]@;
                    assert(paths[j] == ours@[k]@);
                }
            }
            i = i + 1;
        }
        proof {
            assert(paths.take(paths.len() as int) =~= paths);
            assert(ours@.map_values(|p: Vec<u8>| p@) == all_ours);
        }
        let cut: usize = if ours.len() > keep {
            ours.len() - keep
        } else {
            0
        };
        let mut removed: usize = 0;
        while removed < cut
            invariant
                removed <= cut <= ours@.len(),
                cut == surplus(all_ours.len(), keep as nat),
                disk == old(storage).view(),
                dir == self.dir@,
                all_ours == numbered_files(snapshot_files(disk, dir), dir),
                storage.reliable() == old(storage).reliable(),
                ours@.map_values(|p: Vec<u8>| p@) == all_ours,
                forall|k: int| 0 <= k < ours@.len() ==> disk.has(#[trigger] ours@[k]@),
                forall|a: int, b: int|
                    0 <= a < b < ours@.len() ==> #[trigger] crate::paths::sorts_before(
                        ours@[a]@,
                        ours@[b]@,
                    ),
                storage.view() == crate::journal::without_first(disk, all_ours, removed as nat),
            decreases cut - removed,
        {
            let path = ours[removed].as_slice();
            proof {
                let at = all_ours[removed as int];
                assert(ours@[removed as int]@ == at);
                assert(disk.has(ours@[removed as int]@));
                crate::journal::lemma_without_first(disk, all_ours, removed as nat);
                let gone = all_ours.take(removed as int);
                if gone.contains(at) {
                    let k = choose|k: int| 0 <= k < gone.len() && gone[k] == at;
                    assert(ours@[k]@ == at);
                    assert(crate::paths::sorts_before(ours@[k]@, ours@[removed as int]@));
                    crate::paths::lemma_sorts_irreflexive(at);
                }
                assert(storage.view().has(at));
            }
            if let Err(e) = storage.remove(path) {
                return Err(JournalError::Io(e));
            }
            removed = removed + 1;
        }
        if cut > 0 {
            if let Err(e) = storage.sync_dir(self.dir.as_slice()) {
                return Err(JournalError::Io(e));
            }
        }
        if cut < ours.len() {
            assert(ours@[cut as int]@ == all_ours[cut as int]);
            Ok(Some(SeqNo(numbers[cut])))
        } else {
            Ok(None)
        }
    }
}

/// How many of `n` are too many where `keep` are kept.
pub open spec fn surplus(n: nat, keep: nat) -> nat {
    if n > keep {
        (n - keep) as nat
    } else {
        0
    }
}

/// Where the parts of a snapshot file lie.
pub proof fn law_snapshot_layout(s: SnapshotModel)
    requires
        s.payload.len() <= u32::MAX,
    ensures
        ({
            let b = s.file();
            let len = s.payload.len() as int;
            &&& b.len() == 32 + len + 4
            &&& b.take(4) == seq![0x54u8, 0x4Bu8, 0x54u8, 0x53u8]
            &&& b.subrange(4, 8) == crate::le::le_bytes(1, 4)
            &&& b.subrange(8, 16) == crate::le::le_bytes(s.seq as nat, 8)
            &&& b.subrange(16, 24) == crate::le::le_bytes(s.epoch as nat, 8)
            &&& b.subrange(24, 28) == crate::le::le_bytes(s.payload.len(), 4)
            &&& b.subrange(28, 32) == crate::le::le_bytes(
                crate::crc32c::checksum(b.take(28)) as nat,
                4,
            )
            &&& b.subrange(32, 32 + len) == s.payload
            &&& b.skip(32 + len) == crate::le::le_bytes(
                crate::crc32c::checksum(s.payload) as nat,
                4,
            )
        }),
{
    reveal(SnapshotModel::file);
    let b = s.file();
    let len = s.payload.len() as int;
    assert(b.take(28) =~= s.head());
    assert(b.take(4) =~= seq![0x54u8, 0x4Bu8, 0x54u8, 0x53u8]);
    assert(b.subrange(4, 8) =~= crate::le::le_bytes(1, 4));
    assert(b.subrange(8, 16) =~= crate::le::le_bytes(s.seq as nat, 8));
    assert(b.subrange(16, 24) =~= crate::le::le_bytes(s.epoch as nat, 8));
    assert(b.subrange(24, 28) =~= crate::le::le_bytes(s.payload.len(), 4));
    assert(b.subrange(28, 32) =~= crate::frame::crc_bytes(s.head()));
    assert(b.subrange(32, 32 + len) =~= s.payload);
    assert(b.skip(32 + len) =~= crate::frame::crc_bytes(s.payload));
}

/// What is loaded is every usable snapshot up to the given seq and no other, the
/// newest first.
pub proof fn law_candidates_come_newest_first(disk: DiskModel, dir: Seq<u8>, max: u64, p: Seq<u8>)
    requires
        crate::paths::is_listing(
            snapshot_files(disk, dir),
            crate::listing::wanted(disk, dir, crate::paths::snap_ext()),
        ),
        named_by_seq(disk, dir),
    ensures
        ({
            let all = candidates(disk, dir, max);
            &&& forall|i: int, j: int| 0 <= i < j < all.len() ==> all[i].seq > all[j].seq
            &&& forall|i: int| 0 <= i < all.len() ==> (#[trigger] all[i]).seq <= max
            &&& disk.has(p) && crate::paths::is_child(p, dir) && crate::paths::has_extension(
                p,
                crate::paths::snap_ext(),
            ) ==> (read_snapshot(disk.files[p].content()) matches Some(s) ==> (s.seq <= max
                <==> all.contains(s)))
        }),
{
    let files = snapshot_files(disk, dir);
    let all = candidates(disk, dir, max);
    lemma_usable_descends(disk, dir, max, files.len());
    if disk.has(p) && crate::paths::is_child(p, dir) && crate::paths::has_extension(
        p,
        crate::paths::snap_ext(),
    ) {
        assert(crate::listing::wanted(disk, dir, crate::paths::snap_ext())(p));
        let j = choose|j: int| 0 <= j < files.len() && files[j] == p;
        if let Some(s) = read_snapshot(disk.files[p].content()) {
            if s.seq <= max {
                assert(all.contains(read_snapshot(disk.files[files[j]].content())->0));
            }
            if all.contains(s) {
                let i = choose|i: int| 0 <= i < all.len() && all[i] == s;
                assert(all[i].seq <= max);
            }
        }
    }
}

proof fn lemma_usable_descends(disk: DiskModel, dir: Seq<u8>, max: u64, k: nat)
    requires
        crate::paths::is_listing(
            snapshot_files(disk, dir),
            crate::listing::wanted(disk, dir, crate::paths::snap_ext()),
        ),
        named_by_seq(disk, dir),
        k <= snapshot_files(disk, dir).len(),
    ensures
        ({
            let files = snapshot_files(disk, dir);
            let all = usable(files, disk.files, max, k);
            &&& forall|i: int| 0 <= i < all.len() ==> (#[trigger] all[i]).seq <= max && exists|j: int|
                0 <= j < k && #[trigger] read_snapshot(disk.files[files[j]].content()) == Some(
                    all[i],
                )
            &&& forall|i: int, j: int| 0 <= i < j < all.len() ==> all[i].seq > all[j].seq
            &&& forall|j: int|
                0 <= j < k ==> (#[trigger] read_snapshot(disk.files[files[j]].content()) matches Some(
                    s,
                ) ==> (s.seq <= max ==> all.contains(s)))
        }),
    decreases k,
{
    if k > 0 {
        let ext = crate::paths::snap_ext();
        let files = snapshot_files(disk, dir);
        let rest = usable(files, disk.files, max, (k - 1) as nat);
        let all = usable(files, disk.files, max, k);
        let n = k - 1;
        lemma_usable_descends(disk, dir, max, (k - 1) as nat);
        let last = read_snapshot(disk.files[files[n]].content());
        if last is Some && last->0.seq <= max {
            let s = last->0;
            assert(all =~= seq![s] + rest);
            assert(files[n] == crate::paths::numbered(dir, s.seq, ext));
            assert forall|i: int| 0 <= i < rest.len() implies (#[trigger] rest[i]).seq < s.seq by {
                let t = rest[i];
                let j = choose|j: int|
                    0 <= j < k - 1 && #[trigger] read_snapshot(disk.files[files[j]].content())
                        == Some(t);
                assert(files[j] == crate::paths::numbered(dir, t.seq, ext));
                assert(crate::paths::sorts_before(files[j], files[n]));
                crate::paths::lemma_sorts_irreflexive(files[j]);
                if s.seq < t.seq {
                    crate::paths::lemma_numbered_sorts(dir, s.seq, t.seq, ext);
                    crate::paths::lemma_sorts_transitive(files[j], files[n], files[j]);
                }
            }
            assert forall|i: int, j: int| 0 <= i < j < all.len() implies all[i].seq > all[j].seq by {
                assert(all[j] == rest[j - 1]);
                if i > 0 {
                    assert(all[i] == rest[i - 1]);
                }
            }
            assert forall|i: int| 0 <= i < all.len() implies (#[trigger] all[i]).seq <= max
                && exists|j: int|
                0 <= j < k && #[trigger] read_snapshot(disk.files[files[j]].content()) == Some(
                    all[i],
                ) by {
                if i == 0 {
                    assert(read_snapshot(disk.files[files[n]].content()) == Some(all[i]));
                } else {
                    assert(all[i] == rest[i - 1]);
                    let j = choose|j: int|
                        0 <= j < k - 1 && #[trigger] read_snapshot(
                            disk.files[files[j]].content(),
                        ) == Some(rest[i - 1]);
                    assert(read_snapshot(disk.files[files[j]].content()) == Some(all[i]));
                }
            }
            assert forall|j: int| 0 <= j < k implies (#[trigger] read_snapshot(
                disk.files[files[j]].content(),
            ) matches Some(t) ==> (t.seq <= max ==> all.contains(t))) by {
                if j == n {
                    assert(all[0] == s);
                } else if let Some(t) = read_snapshot(disk.files[files[j]].content()) {
                    if t.seq <= max {
                        assert(rest.contains(t));
                        let i = choose|i: int| 0 <= i < rest.len() && rest[i] == t;
                        assert(all[i + 1] == t);
                    }
                }
            }
        } else {
            assert(all == rest);
            assert forall|i: int| 0 <= i < all.len() implies (#[trigger] all[i]).seq <= max
                && exists|j: int|
                0 <= j < k && #[trigger] read_snapshot(disk.files[files[j]].content()) == Some(
                    all[i],
                ) by {
                let j = choose|j: int|
                    0 <= j < k - 1 && #[trigger] read_snapshot(disk.files[files[j]].content())
                        == Some(rest[i]);
                assert(read_snapshot(disk.files[files[j]].content()) == Some(all[i]));
            }
        }
    }
}

/// The highest number among the names is one of them and at least each of them;
/// it is 0 where no name gives a number.
pub proof fn law_highest_name_is_found(paths: Seq<Seq<u8>>, dir: Seq<u8>, k: nat, i: int)
    requires
        k <= paths.len(),
    ensures
        0 <= i < k ==> (snap_number(paths[i], dir) matches Some(n) ==> n <= highest(paths, dir, k)),
        highest(paths, dir, k) == 0 || exists|j: int|
            0 <= j < k && #[trigger] snap_number(paths[j], dir) == Some(highest(paths, dir, k)),
    decreases k,
{
    if k > 0 {
        law_highest_name_is_found(paths, dir, (k - 1) as nat, i);
        let rest = highest(paths, dir, (k - 1) as nat);
        let n = k - 1;
        assert(snap_number(paths[n], dir) == snap_number(paths[k - 1], dir));
        if rest != 0 {
            let j = choose|j: int|
                0 <= j < k - 1 && #[trigger] snap_number(paths[j], dir) == Some(rest);
            assert(snap_number(paths[j], dir) == Some(rest));
        }
    }
}

/// Purging deletes the snapshots that are named for a seq beyond the given one,
/// and nothing else.
pub proof fn law_purge_deletes_what_lies_beyond(disk: DiskModel, dir: Seq<u8>, max: u64, p: Seq<u8>)
    ensures
        ({
            let after = purged(disk, dir, max);
            let snap = crate::paths::is_child(p, dir) && crate::paths::has_extension(
                p,
                crate::paths::snap_ext(),
            );
            &&& after.has(p) ==> disk.has(p) && after.files[p] == disk.files[p]
            &&& disk.has(p) && !snap ==> after.has(p)
            &&& disk.has(p) && snap ==> match crate::paths::stem_number(
                crate::paths::stem(p, dir.len(), 4),
            ) {
                Some(n) => after.has(p) <==> n <= max,
                None => after.has(p),
            }
            &&& after.epoch == disk.epoch
        }),
{
}

} // verus!
