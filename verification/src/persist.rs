//! Durable acceptor state.
//!
//! An acceptor that forgets its highest promised epoch across a restart can
//! grant the same epoch to two candidates. [`PersistentAcceptor`] persists
//! the new promise, synced, before it hands a grant out: a crash after the
//! durable write remembers the promise, and a crash before it means the
//! grant never left.

use vstd::prelude::*;
use vstd::slice::slice_subrange;

use crate::crc32c::crc32c;
use crate::election::{Acceptor, VoteReply, VoteRequest};
use crate::le::{get_le, put_le};
use crate::paths::copy_bytes;
use crate::seq::SeqNo;
use crate::storage::{DiskModel, FileModel, IoError, Storage, StorageFile};

verus! {

broadcast use crate::le::lemma_le_bytes_len;

/// magic + promised(u64) + crc
pub const RECORD_LEN: usize = 16;

#[derive(Debug, Clone, Copy, PartialEq, Eq)]
pub enum PersistError {
    Io(IoError),
    /// The state file exists but is malformed or corrupt.
    Corrupt(&'static str),
}

/// `TKAP`, the first bytes of the state file.
pub open spec fn state_magic() -> Seq<u8> {
    seq![0x54u8, 0x4Bu8, 0x41u8, 0x50u8]
}

/// The state file that records `promised`.
#[verifier::opaque]
pub open spec fn state_record(promised: u64) -> Seq<u8> {
    let head = state_magic() + crate::le::le_bytes(promised as nat, 8);
    head + crate::frame::crc_bytes(head)
}

/// The promise that a state file records.
#[verifier::opaque]
pub open spec fn read_state(bytes: Seq<u8>) -> Result<u64, PersistError> {
    if bytes.len() != 16 {
        Err(PersistError::Corrupt("wrong length"))
    } else if bytes.take(4) != state_magic() {
        Err(PersistError::Corrupt("bad magic"))
    } else if crate::crc32c::checksum(bytes.take(12)) as nat != crate::frame::field(
        bytes,
        12,
        16,
    ) {
        Err(PersistError::Corrupt("crc mismatch"))
    } else {
        Ok(crate::frame::field(bytes, 4, 12) as u64)
    }
}

/// The state file reads back as the promise it records.
pub proof fn law_state_roundtrip(promised: u64)
    ensures
        read_state(state_record(promised)) == Ok::<u64, PersistError>(promised),
{
    reveal(state_record);
    reveal(read_state);
    let head = state_magic() + crate::le::le_bytes(promised as nat, 8);
    let b = state_record(promised);
    crate::le::lemma_pow256_values();
    assert(b.take(4) =~= state_magic());
    assert(b.take(12) =~= head);
    assert(b.subrange(4, 12) =~= crate::le::le_bytes(promised as nat, 8));
    assert(b.subrange(12, 16) =~= crate::frame::crc_bytes(head));
    crate::le::law_le_value_of_bytes(promised as nat, 8);
    crate::le::law_le_value_of_bytes(crate::crc32c::checksum(head) as nat, 4);
}

/// A state file with any one byte changed, or cut short, is refused: a
/// promise is never silently forgotten.
pub proof fn law_damaged_state_is_refused(promised: u64, i: int, byte: u8, cut: int)
    requires
        0 <= i < 16,
        state_record(promised)[i] != byte,
        0 <= cut < 16,
    ensures
        read_state(state_record(promised).update(i, byte)) is Err,
        read_state(state_record(promised).take(cut)) is Err,
{
    law_state_roundtrip(promised);
    reveal(state_record);
    reveal(read_state);
    let good = state_record(promised);
    let bad = good.update(i, byte);
    if i < 12 {
        assert(bad.take(12) =~= good.take(12).update(i, byte));
        crate::crc32c::law_single_byte_change_is_detected(good.take(12), i, byte);
        assert(bad.subrange(12, 16) =~= good.subrange(12, 16));
    } else {
        assert(bad.take(12) =~= good.take(12));
        let a = good.subrange(12, 16);
        let b = bad.subrange(12, 16);
        assert(a[i - 12] != b[i - 12]);
        crate::le::law_le_bytes_of_value(a);
        crate::le::law_le_bytes_of_value(b);
    }
}

/// Reads a state file.
pub fn parse_record(bytes: &[u8]) -> (r: Result<u64, PersistError>)
    ensures
        r == read_state(bytes@),
{
    proof {
        reveal(read_state);
    }
    if bytes.len() != RECORD_LEN {
        return Err(PersistError::Corrupt("wrong length"));
    }
    if bytes[0] != 0x54 || bytes[1] != 0x4B || bytes[2] != 0x41 || bytes[3] != 0x50 {
        assert(bytes@.take(4)[0] == bytes@[0] && bytes@.take(4)[1] == bytes@[1]
            && bytes@.take(4)[2] == bytes@[2] && bytes@.take(4)[3] == bytes@[3]);
        return Err(PersistError::Corrupt("bad magic"));
    }
    proof {
        assert(bytes@.take(4) =~= state_magic());
        assert(bytes@.subrange(0, 12) =~= bytes@.take(12));
        crate::le::lemma_pow256_values();
        crate::le::lemma_le_value_bound(bytes@.subrange(4, 12));
    }
    let stored_crc: u128 = get_le(slice_subrange(bytes, 12, 16));
    if crc32c(slice_subrange(bytes, 0, 12)) as u128 != stored_crc {
        return Err(PersistError::Corrupt("crc mismatch"));
    }
    Ok(get_le(slice_subrange(bytes, 4, 12)) as u64)
}

/// The promise that the disk remembers at `path`: none without a file.
pub open spec fn remembered(disk: DiskModel, path: Seq<u8>) -> Result<u64, PersistError> {
    if disk.has(path) {
        read_state(disk.files[path].content())
    } else {
        Ok(0)
    }
}

/// The promise is on stable storage.
pub open spec fn is_durable(disk: DiskModel, path: Seq<u8>, promised: u64) -> bool {
    if disk.has(path) {
        disk.files[path] == (FileModel {
            synced: state_record(promised),
            unsynced: Seq::empty(),
        })
    } else {
        promised == 0
    }
}

/// A promise on stable storage is remembered, also after power loss.
pub proof fn law_durable_promise_survives(
    before: DiskModel,
    after: DiskModel,
    path: Seq<u8>,
    promised: u64,
    torn: bool,
)
    requires
        is_durable(before, path, promised),
        after.has(path) == before.has(path),
        before.has(path) ==> crate::sim_storage::survives(
            before.files[path],
            after.files[path],
            torn,
        ),
    ensures
        remembered(before, path) == Ok::<u64, PersistError>(promised),
        remembered(after, path) == Ok::<u64, PersistError>(promised),
        is_durable(after, path, promised),
{
    if before.has(path) {
        law_state_roundtrip(promised);
        let was = before.files[path];
        let now = after.files[path];
        assert(was.content() =~= state_record(promised));
        assert(was.content().take(now.synced.len() as int) =~= was.synced);
        assert(now.content() =~= now.synced);
        assert(now.unsynced =~= Seq::<u8>::empty());
    }
}

/// Where an acceptor and its disk stand.
pub struct Point {
    pub promise: u64,
    pub disk: DiskModel,
}

/// What happens to an acceptor with its state at one path.
pub enum Turn {
    /// It answers a request for the epoch, with the high-water it has then.
    Asked { epoch: u64, high_water: u64 },
    /// Power is lost, in the middle of a write or not, and it is opened again.
    Restarted { torn: bool },
}

/// The turn takes the acceptor from one point to the next: what
/// [`PersistentAcceptor::handle`] answers, and what
/// [`PersistentAcceptor::open`] brings back.
pub open spec fn takes_turn(path: Seq<u8>, before: Point, turn: Turn, after: Point) -> bool {
    match turn {
        Turn::Asked { epoch, high_water } => {
            &&& after.promise == crate::election::promised_after(before.promise, epoch)
            &&& if crate::election::vote(before.promise, high_water, epoch) is Grant {
                is_durable(after.disk, path, after.promise)
            } else {
                after.disk == before.disk
            }
        },
        Turn::Restarted { torn } => {
            &&& after.disk.has(path) == before.disk.has(path)
            &&& before.disk.has(path) ==> crate::sim_storage::survives(
                before.disk.files[path],
                after.disk.files[path],
                torn,
            )
            &&& remembered(after.disk, path) == Ok::<u64, PersistError>(after.promise)
        },
    }
}

/// The points that an acceptor goes through, turn by turn, from one at which
/// its promise is on stable storage.
pub open spec fn lives(path: Seq<u8>, points: Seq<Point>, turns: Seq<Turn>) -> bool {
    &&& points.len() == turns.len() + 1
    &&& is_durable(points[0].disk, path, points[0].promise)
    &&& forall|i: int|
        0 <= i < turns.len() ==> #[trigger] takes_turn(path, points[i], turns[i], points[i + 1])
}

/// The `i`-th turn grants this epoch.
pub open spec fn turn_grants(points: Seq<Point>, turns: Seq<Turn>, i: int, epoch: u64) -> bool {
    &&& 0 <= i < turns.len()
    &&& turns[i] matches Turn::Asked { epoch: e, high_water } && e == epoch
        && crate::election::vote(points[i].promise, high_water, e) is Grant
}

proof fn lemma_promise_kept(path: Seq<u8>, points: Seq<Point>, turns: Seq<Turn>, i: int, j: int)
    requires
        lives(path, points, turns),
        0 <= i <= j <= turns.len(),
    ensures
        is_durable(points[j].disk, path, points[j].promise),
        points[i].promise <= points[j].promise,
    decreases j,
{
    if j > 0 {
        lemma_promise_kept(path, points, turns, if i < j { i } else { j - 1 }, j - 1);
        assert(takes_turn(path, points[j - 1], turns[j - 1], points[j - 1 + 1]));
        if let Turn::Restarted { torn } = turns[j - 1] {
            law_durable_promise_survives(
                points[j - 1].disk,
                points[j].disk,
                path,
                points[j - 1].promise,
                torn,
            );
        }
    }
}

/// No epoch is granted twice, over any number of crashes and reopenings: the
/// grants go strictly up, and the promise never falls below an epoch that was
/// granted.
pub proof fn law_grants_go_up_over_restarts(
    path: Seq<u8>,
    points: Seq<Point>,
    turns: Seq<Turn>,
    i: int,
    j: int,
    first: u64,
    second: u64,
)
    requires
        lives(path, points, turns),
        i < j,
        turn_grants(points, turns, i, first),
    ensures
        j <= turns.len() ==> points[j].promise >= first,
        turn_grants(points, turns, j, second) ==> first < second,
{
    if j <= turns.len() {
        assert(takes_turn(path, points[i], turns[i], points[i + 1]));
        lemma_promise_kept(path, points, turns, i + 1, j);
    }
}

/// An [`Acceptor`] whose promise survives crashes.
///
/// The high-water is not persisted here: it is recovered from the co-located
/// replica's journal and re-established with [`Self::observe_seq`].
pub struct PersistentAcceptor {
    inner: Acceptor,
    path: Vec<u8>,
}

impl PersistentAcceptor {
    pub closed spec fn path(&self) -> Seq<u8> {
        self.path@
    }

    /// The highest epoch promised so far.
    pub closed spec fn promise(&self) -> u64 {
        self.inner.promise()
    }

    /// The journal high-water reported in grants.
    pub closed spec fn mark(&self) -> u64 {
        self.inner.mark()
    }

    /// Opens the acceptor at `path`, recovering its promise if a prior record
    /// exists. A corrupt record is a hard error.
    pub fn open<St: Storage>(path: &[u8], storage: &St) -> (r: Result<Self, PersistError>)
        ensures
            match r {
                Ok(acc) => {
                    &&& remembered(storage.view(), path@) == Ok::<u64, PersistError>(acc.promise())
                    &&& acc.mark() == 0
                    &&& acc.path() == path@
                },
                Err(e) => e is Io || remembered(storage.view(), path@) == Err::<
                    u64,
                    PersistError,
                >(e),
            },
            storage.reliable() ==> match remembered(storage.view(), path@) {
                Ok(_) => r is Ok,
                Err(e) => r == Err::<Self, PersistError>(e),
            },
    {
        let mut inner = Acceptor::new();
        match storage.read(path) {
            Ok(bytes) => {
                let promised: u64 = parse_record(bytes.as_slice())?;
                if promised > 0 {
                    let _ = inner.handle(VoteRequest { epoch: promised });
                }
            },
            Err(IoError::NotFound) => {},
            Err(e) => {
                return Err(PersistError::Io(e));
            },
        }
        Ok(PersistentAcceptor { inner, path: copy_bytes(path) })
    }

    /// See [`Acceptor::observe_seq`].
    pub fn observe_seq(&mut self, seq: SeqNo)
        ensures
            final(self).path() == old(self).path(),
            final(self).promise() == old(self).promise(),
            final(self).mark() == (if seq.0 > old(self).mark() {
                seq.0
            } else {
                old(self).mark()
            }),
    {
        self.inner.observe_seq(seq);
    }

    /// See [`Acceptor::reset_high_water`].
    pub fn reset_high_water(&mut self, seq: SeqNo)
        ensures
            final(self).path() == old(self).path(),
            final(self).promise() == old(self).promise(),
            final(self).mark() == seq.0,
    {
        self.inner.reset_high_water(seq);
    }

    pub fn promised(&self) -> (r: u64)
        ensures
            r == self.promise(),
    {
        self.inner.promised()
    }

    /// Handles a vote request, persisting a raised promise before returning
    /// the grant. A failed write surfaces as an error, not as a grant.
    pub fn handle<St: Storage>(&mut self, storage: &mut St, request: VoteRequest) -> (r: Result<
        VoteReply,
        PersistError,
    >)
        ensures
            final(self).path() == old(self).path(),
            final(self).mark() == old(self).mark(),
            final(self).promise() == crate::election::promised_after(
                old(self).promise(),
                request.epoch,
            ),
            r matches Ok(reply) ==> {
                &&& reply == crate::election::vote(
                    old(self).promise(),
                    old(self).mark(),
                    request.epoch,
                )
                &&& reply !is Reject || is_durable(
                    old(storage).view(),
                    old(self).path(),
                    old(self).promise(),
                ) ==> is_durable(final(storage).view(), old(self).path(), final(self).promise())
                &&& reply is Reject ==> final(storage).view() == old(storage).view()
            },
            final(storage).view().files.remove(old(self).path()) == old(
                storage,
            ).view().files.remove(old(self).path()),
            final(storage).view().epoch == old(storage).view().epoch,
            r matches Err(e) ==> e is Io,
            request.epoch <= old(self).promise() ==> r == Ok::<VoteReply, PersistError>(
                VoteReply::Reject { promised: old(self).promise() },
            ) && final(storage).view() == old(storage).view(),
            final(storage).reliable() == old(storage).reliable(),
            old(storage).reliable() ==> r is Ok,
    {
        let before: u64 = self.inner.promised();
        let reply = self.inner.handle(request);
        let after: u64 = self.inner.promised();
        if after > before {
            self.persist(storage, after)?;
        }
        Ok(reply)
    }

    /// Writes the promise in place and syncs it.
    fn persist<St: Storage>(&self, storage: &mut St, promised: u64) -> (r: Result<
        (),
        PersistError,
    >)
        ensures
            r is Ok ==> final(storage).view() == old(storage).view().with(
                self.path(),
                FileModel { synced: state_record(promised), unsynced: Seq::empty() },
            ),
            final(storage).view().files.remove(self.path()) == old(storage).view().files.remove(
                self.path(),
            ),
            final(storage).view().epoch == old(storage).view().epoch,
            r matches Err(e) ==> e is Io,
            final(storage).reliable() == old(storage).reliable(),
            old(storage).reliable() ==> r is Ok,
    {
        let ghost before = storage.view();
        let ghost path = self.path@;
        proof {
            reveal(state_record);
        }
        let mut record: Vec<u8> = vec![0x54u8, 0x4Bu8, 0x41u8, 0x50u8];
        put_le(&mut record, promised as u128, 8);
        assert(record@ =~= state_magic() + crate::le::le_bytes(promised as nat, 8));
        let crc: u32 = crc32c(record.as_slice());
        put_le(&mut record, crc as u128, 4);
        assert(record@ == state_record(promised));
        let mut file = match storage.create_new(self.path.as_slice()) {
            Ok(f) => f,
            Err(IoError::AlreadyExists) => {
                if let Err(e) = storage.truncate(self.path.as_slice(), 0) {
                    return Err(PersistError::Io(e));
                }
                assert(before.files[path].content().take(0) =~= Seq::<u8>::empty());
                match storage.open_append(self.path.as_slice()) {
                    Ok(f) => f,
                    Err(e) => {
                        assert(storage.view().files.remove(path) =~= before.files.remove(path));
                        return Err(PersistError::Io(e));
                    },
                }
            },
            Err(e) => {
                return Err(PersistError::Io(e));
            },
        };
        assert(storage.view() == before.with(path, FileModel::empty()));
        let done = file.write_all(storage, record.as_slice());
        assert(storage.view().files.remove(path) =~= before.files.remove(path));
        if let Err(e) = done {
            return Err(PersistError::Io(e));
        }
        proof {
            assert(record@.take(record@.len() as int) =~= record@);
            assert(Seq::<u8>::empty() + record@ =~= record@);
            assert(storage.view().files =~= before.files.insert(
                path,
                FileModel { synced: Seq::empty(), unsynced: record@ },
            ));
        }
        let done = file.sync_data(storage);
        assert(storage.view().files.remove(path) =~= before.files.remove(path));
        if let Err(e) = done {
            return Err(PersistError::Io(e));
        }
        assert(storage.view().files =~= before.files.insert(
            path,
            FileModel { synced: record@, unsynced: Seq::empty() },
        ));
        Ok(())
    }
}

/// Where the parts of a state file lie.
pub proof fn law_state_layout(promised: u64)
    ensures
        ({
            let b = state_record(promised);
            &&& b.len() == 16
            &&& b.take(4) == seq![0x54u8, 0x4Bu8, 0x41u8, 0x50u8]
            &&& b.subrange(4, 12) == crate::le::le_bytes(promised as nat, 8)
            &&& b.skip(12) == crate::le::le_bytes(crate::crc32c::checksum(b.take(12)) as nat, 4)
        }),
{
    reveal(state_record);
    let b = state_record(promised);
    let head = state_magic() + crate::le::le_bytes(promised as nat, 8);
    assert(b.take(12) =~= head);
    assert(b.take(4) =~= seq![0x54u8, 0x4Bu8, 0x41u8, 0x50u8]);
    assert(b.subrange(4, 12) =~= crate::le::le_bytes(promised as nat, 8));
    assert(b.skip(12) =~= crate::frame::crc_bytes(head));
}

/// Where there is no state file nothing was promised, and where there is one its
/// promise counts.
pub proof fn law_no_file_means_no_promise(disk: DiskModel, path: Seq<u8>, promised: u64)
    ensures
        !disk.has(path) ==> remembered(disk, path) == Ok::<u64, PersistError>(0),
        disk.has(path) && disk.files[path].content() == state_record(promised) ==> remembered(
            disk,
            path,
        ) == Ok::<u64, PersistError>(promised),
{
    law_state_roundtrip(promised);
}

} // verus!
