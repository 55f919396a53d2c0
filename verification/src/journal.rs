//! The journal: a segmented, append-only, CRC-checked durable log of the
//! sequenced input stream.
//!
//! The journal is the system of record. In-memory state is a derived,
//! disposable projection: any component rebuilds from a snapshot plus a
//! replay of the journal.
//!
//! Segments are files named by the first seq they contain
//! (`00000000000000000001.seg`); see [`crate::segment`] for what they hold.

use std::time::{Duration, Instant};
use vstd::prelude::*;

use crate::frame::{Frame, Record};
use crate::listing::sorted_listing;
use crate::paths::{copy_bytes, numbered_path, parse_stem, seg_extension};
use crate::segment::{frame_error_reason, parse_segment_header, segment_header_bytes, ScanEnd,
    SEGMENT_HEADER_LEN};
use crate::seq::SeqNo;
use crate::storage::{Disk, DiskModel, FileModel, IoError, Storage, StorageFile};
use crate::text::text;

verus! {

broadcast use crate::le::lemma_le_bytes_len;

/// When the journal syncs: the dominant single-node latency/durability dial.
#[derive(Debug, Clone, Copy, PartialEq, Eq, Structural)]
pub enum FsyncPolicy {
    /// Sync after every appended frame. Safest, slowest.
    EveryFrame,
    /// Time-bounded group commit: sync at most once per window; frames
    /// appended inside a window are at risk until it closes.
    Micros(u64),
    /// Never sync; rely on replication (or accept loss) for durability.
    Never,
}

impl FsyncPolicy {
    /// Whether a group-commit window that has been open for `elapsed`
    /// microseconds is over. Only time-bounded group commit has windows.
    pub open spec fn over_after(self, elapsed: u128) -> bool {
        self matches FsyncPolicy::Micros(window) && elapsed >= window
    }

    /// Whether a group-commit window that has been open for `elapsed`
    /// microseconds is over.
    pub fn window_over(self, elapsed: u128) -> (r: bool)
        ensures
            r == self.over_after(elapsed),
            match self {
                FsyncPolicy::Micros(window) => r <==> window <= elapsed,
                FsyncPolicy::EveryFrame => !r,
                FsyncPolicy::Never => !r,
            },
    {
        match self {
            FsyncPolicy::Micros(window) => elapsed >= window as u128,
            _ => false,
        }
    }

    /// A group-commit window is over from its length on and not before, and one
    /// that is over stays over. Other policies have no window to end.
    pub proof fn law_window_stays_over(self, elapsed: u128, later: u128)
        requires
            elapsed <= later,
        ensures
            self.over_after(elapsed) ==> self.over_after(later),
            self matches FsyncPolicy::Micros(window) ==> {
                &&& self.over_after(elapsed) <==> !(elapsed < window)
                &&& self.over_after(window as u128)
            },
            self is EveryFrame || self is Never ==> !self.over_after(elapsed),
    {
    }
}

#[derive(Debug)]
pub struct JournalConfig {
    pub dir: Vec<u8>,
    /// Roll to a new segment once the current one would exceed this size.
    pub segment_bytes: u64,
    pub fsync: FsyncPolicy,
}

impl JournalConfig {
    pub fn new(dir: &[u8]) -> (r: Self)
        ensures
            r.dir@ == dir@,
            r.segment_bytes == 1_073_741_824,
            r.fsync == FsyncPolicy::Micros(50),
    {
        JournalConfig {
            dir: copy_bytes(dir),
            segment_bytes: 1_073_741_824,
            fsync: FsyncPolicy::Micros(50),
        }
    }

    /// Whether two configurations hold the same values.
    pub open spec fn same(&self, other: &JournalConfig) -> bool {
        &&& self.dir@ == other.dir@
        &&& self.segment_bytes == other.segment_bytes
        &&& self.fsync == other.fsync
    }
}

impl Clone for JournalConfig {
    fn clone(&self) -> (r: Self)
        ensures
            r.same(self),
    {
        JournalConfig {
            dir: copy_bytes(self.dir.as_slice()),
            segment_bytes: self.segment_bytes,
            fsync: self.fsync,
        }
    }
}

#[derive(Debug)]
pub enum JournalError {
    Io(IoError),
    /// A sealed (non-final) segment failed validation; recovery cannot
    /// safely continue past it.
    Corrupt { segment: Vec<u8>, offset: u64, reason: String },
    /// Segment header was malformed or version-incompatible.
    BadSegmentHeader { segment: Vec<u8>, reason: String },
    /// Frame sequence numbers are not gapless/monotonic.
    NonContiguousSeq { segment: Vec<u8>, expected: SeqNo, found: SeqNo },
    /// `append` was called with a seq that is not `last_seq + 1`.
    OutOfOrderAppend { expected: SeqNo, found: SeqNo },
    /// The last sequence number is used up: nothing can follow.
    SeqExhausted,
}

/// What a [`JournalError`] says.
pub enum JournalFault {
    Io(IoError),
    Corrupt { segment: Seq<u8>, offset: u64, reason: Seq<char> },
    BadSegmentHeader { segment: Seq<u8>, reason: Seq<char> },
    NonContiguousSeq { segment: Seq<u8>, expected: u64, found: u64 },
    OutOfOrderAppend { expected: u64, found: u64 },
    SeqExhausted,
}

impl View for JournalError {
    type V = JournalFault;

    open spec fn view(&self) -> JournalFault {
        match self {
            JournalError::Io(e) => JournalFault::Io(*e),
            JournalError::Corrupt { segment, offset, reason } => JournalFault::Corrupt {
                segment: segment@,
                offset: *offset,
                reason: reason@,
            },
            JournalError::BadSegmentHeader { segment, reason } => JournalFault::BadSegmentHeader {
                segment: segment@,
                reason: reason@,
            },
            JournalError::NonContiguousSeq { segment, expected, found } => {
                JournalFault::NonContiguousSeq {
                    segment: segment@,
                    expected: expected.0,
                    found: found.0,
                }
            },
            JournalError::OutOfOrderAppend { expected, found } => {
                JournalFault::OutOfOrderAppend { expected: expected.0, found: found.0 }
            },
            JournalError::SeqExhausted => JournalFault::SeqExhausted,
        }
    }
}

/// What reading segments yields.
#[verifier::ext_equal]
pub struct Recovery {
    /// All frames, in seq order.
    pub frames: Seq<Record>,
    /// The seq that comes next.
    pub next: u64,
    /// The epoch in the last segment's header.
    pub epoch: u64,
    /// Where the last segment's torn tail starts, if it has one.
    pub torn: Option<nat>,
}

/// Reads one more segment. The first one decides where history starts; only
/// the last one may end in something that is no frame.
pub open spec fn add_segment(
    so_far: Recovery,
    path: Seq<u8>,
    bytes: Seq<u8>,
    first: bool,
    last: bool,
) -> Result<Recovery, JournalFault> {
    match crate::segment::read_header(bytes) {
        Err(reason) => Err(JournalFault::BadSegmentHeader { segment: path, reason }),
        Ok((start, epoch)) => {
            let next = if first {
                start
            } else {
                so_far.next
            };
            let body = crate::segment::scan(bytes.skip(28), next);
            let count = body.frames.len();
            if start != next {
                Err(
                    JournalFault::NonContiguousSeq { segment: path, expected: next, found: start },
                )
            } else {
                match body.end {
                    ScanEnd::Clean => Ok(
                        Recovery {
                            frames: so_far.frames + body.frames,
                            next: (next + count) as u64,
                            epoch,
                            torn: None,
                        },
                    ),
                    ScanEnd::Bad(e) => if last {
                        Ok(
                            Recovery {
                                frames: so_far.frames + body.frames,
                                next: (next + count) as u64,
                                epoch,
                                torn: Some(28 + body.used),
                            },
                        )
                    } else {
                        Err(
                            JournalFault::Corrupt {
                                segment: path,
                                offset: (28 + body.used) as u64,
                                reason: crate::segment::frame_error_text(e),
                            },
                        )
                    },
                    ScanEnd::Gap(found) => Err(
                        JournalFault::NonContiguousSeq {
                            segment: path,
                            expected: (next + count) as u64,
                            found,
                        },
                    ),
                    ScanEnd::Exhausted => Err(JournalFault::SeqExhausted),
                }
            }
        },
    }
}

/// Reads the first `k` of the segments at `paths`.
pub open spec fn recover_upto(
    paths: Seq<Seq<u8>>,
    files: Map<Seq<u8>, FileModel>,
    k: nat,
) -> Result<Recovery, JournalFault>
    decreases k,
{
    if k == 0 {
        Ok(Recovery { frames: Seq::empty(), next: 1, epoch: 0, torn: None })
    } else {
        match recover_upto(paths, files, (k - 1) as nat) {
            Err(e) => Err(e),
            Ok(so_far) => add_segment(
                so_far,
                paths[k - 1],
                files[paths[k - 1]].content(),
                k == 1,
                k == paths.len(),
            ),
        }
    }
}

/// The segments in `dir`, sorted.
pub open spec fn segments(disk: DiskModel, dir: Seq<u8>) -> Seq<Seq<u8>> {
    crate::listing::listing(disk, dir, crate::paths::seg_ext())
}

/// What the journal in `dir` holds.
pub open spec fn recover(disk: DiskModel, dir: Seq<u8>) -> Result<Recovery, JournalFault> {
    recover_upto(segments(disk, dir), disk.files, segments(disk, dir).len())
}

/// The disk after recovery: a torn tail is cut off.
pub open spec fn after_recovery(disk: DiskModel, dir: Seq<u8>, found: Recovery) -> DiskModel {
    match found.torn {
        None => disk,
        Some(offset) => {
            let path = segments(disk, dir).last();
            disk.with(
                path,
                FileModel {
                    synced: disk.files[path].content().take(offset as int),
                    unsynced: Seq::empty(),
                },
            )
        },
    }
}

/// The seq of the last frame in front of `next`.
pub open spec fn seq_before(next: u64) -> u64 {
    if next == 0 {
        0
    } else {
        (next - 1) as u64
    }
}

/// Result of opening a journal: the writer, positioned at the tail, plus
/// every intact frame for replay.
pub struct Recovered<St: Storage> {
    pub journal: Journal<St>,
    /// All journaled frames in seq order.
    pub frames: Vec<Frame>,
    /// The seq of the first frame the journal holds: 1 for an uncompacted
    /// journal, greater after compaction. What came before must be covered
    /// by a snapshot.
    pub first_seq: SeqNo,
    /// Whether a torn tail was detected and truncated during recovery.
    pub truncated_torn_tail: bool,
}

/// Append-only writer over the segmented log.
pub struct Journal<St: Storage> {
    config: JournalConfig,
    /// Open segment writer plus its current byte size.
    current: Option<OpenSegment<St::File>>,
    last_seq: SeqNo,
    epoch: u64,
    last_sync: Instant,
    dirty: bool,
}

struct OpenSegment<F> {
    file: F,
    size: u64,
}

#[verifier::external_type_specification]
#[verifier::external_body]
pub struct ExInstant(Instant);

/// `Instant::now`: the time on the machine's monotonic clock. Nothing is
/// claimed of it.
#[verifier::external_body]
fn instant_now() -> (r: Instant) {
    Instant::now()
}

/// `Instant::elapsed`: how much time has passed on the machine's monotonic
/// clock. Nothing is claimed of it.
#[verifier::external_body]
fn elapsed_since(since: &Instant) -> (r: Duration) {
    since.elapsed()
}

/// The whole microseconds of a duration.
pub uninterp spec fn micros_of(duration: Duration) -> u128;

/// `Duration::as_micros`, which depends on the duration alone.
#[verifier::external_body]
fn whole_micros(duration: &Duration) -> (r: u128)
    ensures
        r == micros_of(*duration),
{
    duration.as_micros()
}

/// Every segment is named by the first seq in its header.
pub open spec fn names_right(disk: DiskModel, dir: Seq<u8>) -> bool {
    forall|i: int|
        0 <= i < segments(disk, dir).len() ==> (crate::segment::read_header(
            disk.files[#[trigger] segments(disk, dir)[i]].content(),
        ) matches Ok((first, _)) ==> segments(disk, dir)[i] == crate::paths::numbered(
            dir,
            first,
            crate::paths::seg_ext(),
        ))
}

/// The directory holds a journal that reads without a torn tail, under the
/// right names, with frames numbered from 1 or above.
pub open spec fn well_kept(disk: DiskModel, dir: Seq<u8>) -> bool {
    &&& crate::paths::is_listing(
        segments(disk, dir),
        crate::listing::wanted(disk, dir, crate::paths::seg_ext()),
    )
    &&& recover(disk, dir) matches Ok(found) && found.torn is None && found.frames.len()
        < found.next
    &&& names_right(disk, dir)
}

/// What a well-kept journal holds.
pub open spec fn held(disk: DiskModel, dir: Seq<u8>) -> Recovery {
    recover(disk, dir)->Ok_0
}

/// All segments but the last are durable, and so is the last one's header.
pub open spec fn sealed(disk: DiskModel, dir: Seq<u8>) -> bool {
    let segs = segments(disk, dir);
    &&& forall|i: int|
        0 <= i < segs.len() - 1 ==> disk.files[#[trigger] segs[i]].unsynced.len() == 0
    &&& segs.len() > 0 ==> disk.files[segs.last()].synced.len() >= 28
}

/// All segments are durable to their last byte.
pub open spec fn all_synced(disk: DiskModel, dir: Seq<u8>) -> bool {
    forall|i: int|
        0 <= i < segments(disk, dir).len() ==> disk.files[
            #[trigger] segments(disk, dir)[i]
        ].unsynced.len() == 0
}

/// Reading the first segments depends on their contents alone.
pub proof fn lemma_recover_frame(
    paths: Seq<Seq<u8>>,
    a: Map<Seq<u8>, FileModel>,
    b: Map<Seq<u8>, FileModel>,
    k: nat,
)
    requires
        k <= paths.len(),
        forall|i: int| 0 <= i < k ==> a[#[trigger] paths[i]].content() == b[paths[i]].content(),
    ensures
        recover_upto(paths, a, k) == recover_upto(paths, b, k),
    decreases k,
{
    if k > 0 {
        lemma_recover_frame(paths, a, b, (k - 1) as nat);
        assert(a[paths[k - 1]].content() == b[paths[k - 1]].content());
    }
}

/// Segments that read without a torn tail read the same with others behind them.
pub proof fn lemma_recover_extend(
    paths: Seq<Seq<u8>>,
    more: Seq<Seq<u8>>,
    files: Map<Seq<u8>, FileModel>,
    k: nat,
)
    requires
        k <= paths.len(),
        paths.len() <= more.len(),
        more.take(paths.len() as int) == paths,
        recover_upto(paths, files, k) matches Ok(found) && found.torn is None,
    ensures
        recover_upto(more, files, k) == recover_upto(paths, files, k),
    decreases k,
{
    if k > 0 {
        assert(more[k - 1] == more.take(paths.len() as int)[k - 1]);
        if k > 1 {
            lemma_no_torn_inside(paths, files, (k - 1) as nat);
        }
        lemma_recover_extend(paths, more, files, (k - 1) as nat);
    }
}

/// Only the last segment can have a torn tail.
proof fn lemma_no_torn_inside(paths: Seq<Seq<u8>>, files: Map<Seq<u8>, FileModel>, k: nat)
    requires
        k < paths.len(),
        recover_upto(paths, files, k) is Ok,
    ensures
        (recover_upto(paths, files, k)->Ok_0).torn is None,
{
}

/// The segment starts at or before `next`.
pub open spec fn starts_by(bytes: Seq<u8>, next: u64) -> bool {
    crate::segment::read_header(bytes) matches Ok((first, _)) && first <= next
}

/// Every segment read starts at or before the seq that comes next, and the
/// frames read are numbered without a gap up to it.
pub proof fn lemma_recover_order(paths: Seq<Seq<u8>>, files: Map<Seq<u8>, FileModel>, k: nat)
    requires
        k <= paths.len(),
        recover_upto(paths, files, k) is Ok,
    ensures
        ({
            let found = recover_upto(paths, files, k)->Ok_0;
            &&& found.frames.len() <= found.next
            &&& k == 0 ==> found.frames.len() == 0 && found.next == 1
            &&& forall|i: int|
                0 <= i < found.frames.len() ==> (#[trigger] found.frames[i]).valid()
                    && found.frames[i].seq == found.next - found.frames.len() + i
            &&& forall|i: int|
                0 <= i < k ==> starts_by(files[#[trigger] paths[i]].content(), found.next)
        }),
    decreases k,
{
    if k > 0 {
        let before = recover_upto(paths, files, (k - 1) as nat)->Ok_0;
        lemma_recover_order(paths, files, (k - 1) as nat);
        let found = recover_upto(paths, files, k)->Ok_0;
        let bytes = files[paths[k - 1]].content();
        let (start, epoch) = crate::segment::read_header(bytes)->Ok_0;
        let body = crate::segment::scan(bytes.skip(28), start);
        crate::segment::lemma_scan(bytes.skip(28), start);
        assert forall|i: int| 0 <= i < found.frames.len() implies (
        #[trigger] found.frames[i]).valid() && found.frames[i].seq == found.next
            - found.frames.len() + i by {
            if i < before.frames.len() {
                assert(found.frames[i] == before.frames[i]);
            } else {
                assert(found.frames[i] == body.frames[i - before.frames.len()]);
            }
        }
        assert forall|i: int| 0 <= i < k implies starts_by(
            files[#[trigger] paths[i]].content(),
            found.next,
        ) by {
            if i < k - 1 {
                assert(starts_by(files[paths[i]].content(), before.next));
            }
        }
    }
}

/// The paths of a listing differ.
proof fn lemma_distinct_paths(disk: DiskModel, dir: Seq<u8>, i: int, j: int)
    requires
        crate::paths::is_listing(
            segments(disk, dir),
            crate::listing::wanted(disk, dir, crate::paths::seg_ext()),
        ),
        0 <= i < j < segments(disk, dir).len(),
    ensures
        segments(disk, dir)[i] != segments(disk, dir)[j],
{
    let s = segments(disk, dir);
    assert(crate::paths::sorts_before(s[i], s[j]));
    crate::paths::lemma_sorts_irreflexive(s[i]);
}

/// A frame written behind the last segment.
pub proof fn lemma_append_to_last(before: DiskModel, after: DiskModel, dir: Seq<u8>, f: Record)
    requires
        well_kept(before, dir),
        segments(before, dir).len() > 0,
        f.valid(),
        f.seq == held(before, dir).next,
        f.seq < u64::MAX,
        after.files.dom() == before.files.dom(),
        forall|p: Seq<u8>| #[trigger]
            before.has(p) && p != segments(before, dir).last() ==> after.files[p].content()
                == before.files[p].content(),
        after.files[segments(before, dir).last()].content()
            == before.files[segments(before, dir).last()].content() + f.wire(),
    ensures
        well_kept(after, dir),
        segments(after, dir) == segments(before, dir),
        held(after, dir) == (Recovery {
            frames: held(before, dir).frames.push(f),
            next: (f.seq + 1) as u64,
            epoch: held(before, dir).epoch,
            torn: None,
        }),
        first_of_last(after, dir) <= f.seq,
{
    let segs = segments(before, dir);
    let n = segs.len();
    let last = segs.last();
    crate::listing::lemma_listing_of_same_paths(before, after, dir, crate::paths::seg_ext());
    assert forall|p: Seq<u8>| after.has(p) == before.has(p) by {
        assert(after.files.dom().contains(p) == before.files.dom().contains(p));
    }
    assert(crate::listing::wanted(before, dir, crate::paths::seg_ext())
        =~= crate::listing::wanted(after, dir, crate::paths::seg_ext()));
    assert forall|i: int| 0 <= i < n - 1 implies before.files[#[trigger] segs[i]].content()
        == after.files[segs[i]].content() by {
        lemma_distinct_paths(before, dir, i, n - 1);
        assert(crate::listing::wanted(before, dir, crate::paths::seg_ext())(segs[i]));
        assert(before.has(segs[i]));
    }
    lemma_recover_frame(segs, before.files, after.files, (n - 1) as nat);
    let bytes = before.files[last].content();
    crate::segment::lemma_header_len(bytes);
    crate::segment::lemma_header_prefix(bytes, f.wire());
    let so_far = recover_upto(segs, before.files, (n - 1) as nat)->Ok_0;
    let (start, epoch) = crate::segment::read_header(bytes)->Ok_0;
    crate::segment::lemma_scan(bytes.skip(28), start);
    crate::segment::lemma_scan_push(bytes.skip(28), start, f);
    let body = crate::segment::scan(bytes.skip(28), start);
    assert(so_far.frames + body.frames.push(f) =~= (so_far.frames + body.frames).push(f));
    assert forall|i: int| 0 <= i < segments(after, dir).len() implies (
    crate::segment::read_header(
        after.files[#[trigger] segments(after, dir)[i]].content(),
    ) matches Ok((first, _)) ==> segments(after, dir)[i] == crate::paths::numbered(
        dir,
        first,
        crate::paths::seg_ext(),
    )) by {
        assert(segments(before, dir)[i] == segs[i]);
    }
}

/// A fresh segment behind the others.
pub proof fn lemma_new_segment(before: DiskModel, after: DiskModel, dir: Seq<u8>)
    requires
        well_kept(before, dir),
        !before.has(
            crate::paths::numbered(dir, held(before, dir).next, crate::paths::seg_ext()),
        ),
        ({
            let next = held(before, dir).next;
            let path = crate::paths::numbered(dir, next, crate::paths::seg_ext());
            &&& after.files.dom() == before.files.dom().insert(path)
            &&& after.files[path].content() == crate::segment::segment_header(
                next,
                held(before, dir).epoch,
            )
            &&& forall|p: Seq<u8>| #[trigger]
                before.has(p) ==> after.files[p].content() == before.files[p].content()
        }),
    ensures
        well_kept(after, dir),
        segments(after, dir) == segments(before, dir).push(
            crate::paths::numbered(dir, held(before, dir).next, crate::paths::seg_ext()),
        ),
        held(after, dir) == held(before, dir),
{
    let segs = segments(before, dir);
    let n = segs.len();
    let ext = crate::paths::seg_ext();
    let found = held(before, dir);
    let next = found.next;
    let path = crate::paths::numbered(dir, next, ext);
    crate::paths::lemma_numbered(dir, next, ext);
    lemma_recover_order(segs, before.files, n);
    assert forall|i: int| 0 <= i < n implies crate::paths::sorts_before(
        #[trigger] segs[i],
        path,
    ) by {
        let (first, _) = crate::segment::read_header(before.files[segs[i]].content())->Ok_0;
        assert(crate::listing::wanted(before, dir, ext)(segs[i]));
        assert(segs[i] == crate::paths::numbered(dir, first, ext));
        assert(first <= next);
        assert(before.has(segs[i]));
        assert(first != next);
        crate::paths::lemma_numbered_sorts(dir, first, next, ext);
    }
    crate::listing::lemma_listing_push(before, after, dir, ext, path);
    let more = segments(after, dir);
    assert(more.take(n as int) =~= segs);
    lemma_recover_extend(segs, more, before.files, n);
    assert forall|i: int| 0 <= i < n implies before.files[#[trigger] more[i]].content()
        == after.files[more[i]].content() by {
        assert(more[i] == segs[i]);
        assert(crate::listing::wanted(before, dir, ext)(segs[i]));
        assert(before.has(segs[i]));
    }
    lemma_recover_frame(more, before.files, after.files, n);
    let header = crate::segment::segment_header(next, found.epoch);
    crate::segment::law_header_roundtrip(next, found.epoch, Seq::empty());
    assert(header + Seq::<u8>::empty() =~= header);
    assert(header.skip(28).len() == 0);
    let body = crate::segment::scan(header.skip(28), next);
    assert(found.frames + body.frames =~= found.frames);
    assert forall|i: int| 0 <= i < more.len() implies (crate::segment::read_header(
        after.files[#[trigger] more[i]].content(),
    ) matches Ok((first, _)) ==> more[i] == crate::paths::numbered(dir, first, ext)) by {
        if i < n {
            assert(more[i] == segs[i]);
        }
    }
}

/// The seq that the header of the last segment gives for its first frame.
pub open spec fn first_of_last(disk: DiskModel, dir: Seq<u8>) -> u64 {
    (crate::segment::read_header(
        disk.files[segments(disk, dir).last()].content(),
    )->Ok_0).0
}

/// A size as a number of 64 bits, the largest standing for all beyond it.
pub open spec fn clipped(size: nat) -> u64 {
    if size <= u64::MAX {
        size as u64
    } else {
        u64::MAX
    }
}

/// A frame of `len` bytes goes to a new segment: there is none yet, or the
/// last one holds frames and would grow past `segment_bytes`.
pub open spec fn rolls(disk: DiskModel, dir: Seq<u8>, segment_bytes: u64, len: nat) -> bool {
    let segs = segments(disk, dir);
    let size = disk.files[segs.last()].content().len();
    segs.len() == 0 || (size > SEGMENT_HEADER_LEN && size + len > segment_bytes)
}

/// The disk with the journal in `dir` synced: where frames were appended since
/// the last sync, all of the last segment is durable.
pub open spec fn flushed_end(disk: DiskModel, dir: Seq<u8>, pending: bool) -> DiskModel {
    let segs = segments(disk, dir);
    if pending && segs.len() > 0 {
        disk.with(segs.last(), disk.files[segs.last()].flushed())
    } else {
        disk
    }
}

/// The disk with a new segment that starts at `seq` behind the journal.
pub open spec fn new_end(disk: DiskModel, dir: Seq<u8>, pending: bool, seq: u64) -> DiskModel {
    flushed_end(disk, dir, pending).with(
        crate::paths::numbered(dir, seq, crate::paths::seg_ext()),
        FileModel {
            synced: crate::segment::segment_header(seq, held(disk, dir).epoch),
            unsynced: Seq::empty(),
        },
    )
}

/// The disk with the frame `f` written behind the journal, not synced.
pub open spec fn filed(
    disk: DiskModel,
    dir: Seq<u8>,
    pending: bool,
    segment_bytes: u64,
    f: Record,
) -> DiskModel {
    if rolls(disk, dir, segment_bytes, f.wire().len()) {
        let path = crate::paths::numbered(dir, f.seq, crate::paths::seg_ext());
        let more = new_end(disk, dir, pending, f.seq);
        more.with(path, more.files[path].appended(f.wire()))
    } else {
        let last = segments(disk, dir).last();
        disk.with(last, disk.files[last].appended(f.wire()))
    }
}

/// What writing the frame that comes next leads to on a disk that works: a
/// frame behind which no seq is left is refused, as is one whose new segment
/// is there already.
pub open spec fn filing(
    disk: DiskModel,
    dir: Seq<u8>,
    pending: bool,
    segment_bytes: u64,
    f: Record,
) -> Result<DiskModel, JournalError> {
    if f.seq == u64::MAX {
        Err(JournalError::SeqExhausted)
    } else if rolls(disk, dir, segment_bytes, f.wire().len()) && disk.has(
        crate::paths::numbered(dir, f.seq, crate::paths::seg_ext()),
    ) {
        Err(JournalError::Io(IoError::AlreadyExists))
    } else {
        Ok(filed(disk, dir, pending, segment_bytes, f))
    }
}

/// Where a frame with the bytes `wire` goes: behind the last segment or, where
/// that is full, behind the header of a new one that is named by its seq. No
/// other file changes what it holds.
#[verifier::opaque]
pub open spec fn placed(
    disk: DiskModel,
    now: DiskModel,
    dir: Seq<u8>,
    new: bool,
    seq: u64,
    wire: Seq<u8>,
) -> bool {
    let segs = segments(disk, dir);
    let path = if new {
        crate::paths::numbered(dir, seq, crate::paths::seg_ext())
    } else {
        segs.last()
    };
    &&& segments(now, dir) == if new {
        segs.push(path)
    } else {
        segs
    }
    &&& now.files[path].content() == if new {
        crate::segment::segment_header(seq, held(disk, dir).epoch) + wire
    } else {
        disk.files[path].content() + wire
    }
    &&& forall|p: Seq<u8>| #[trigger]
        disk.has(p) && p != path ==> now.files[p].content() == disk.files[p].content()
}

/// Writing behind the last segment, which may be a new one, places a frame.
proof fn lemma_written(
    disk: DiskModel,
    mid: DiskModel,
    now: DiskModel,
    dir: Seq<u8>,
    new: bool,
    seq: u64,
    wire: Seq<u8>,
)
    requires
        segments(mid, dir).len() > 0,
        segments(now, dir) == segments(mid, dir),
        forall|p: Seq<u8>| #[trigger]
            disk.has(p) ==> mid.has(p) && mid.files[p].content() == disk.files[p].content(),
        forall|p: Seq<u8>| #[trigger]
            mid.has(p) && p != segments(mid, dir).last() ==> now.files[p] == mid.files[p],
        now.files[segments(mid, dir).last()].content() == mid.files[segments(
            mid,
            dir,
        ).last()].content() + wire,
        !new ==> disk == mid,
        new ==> {
            let path = crate::paths::numbered(dir, seq, crate::paths::seg_ext());
            &&& segments(mid, dir) == segments(disk, dir).push(path)
            &&& mid.files[path].content() == crate::segment::segment_header(
                seq,
                held(disk, dir).epoch,
            )
        },
    ensures
        placed(disk, now, dir, new, seq, wire),
{
    reveal(placed);
}

/// A placed frame stays where it is while files keep what they hold.
proof fn lemma_stays_placed(
    disk: DiskModel,
    mid: DiskModel,
    now: DiskModel,
    dir: Seq<u8>,
    new: bool,
    seq: u64,
    wire: Seq<u8>,
)
    requires
        placed(disk, mid, dir, new, seq, wire),
        well_kept(mid, dir),
        new || segments(disk, dir).len() > 0,
        now.files.dom() == mid.files.dom(),
        forall|p: Seq<u8>| #[trigger] disk.has(p) ==> mid.has(p),
        forall|p: Seq<u8>| #[trigger]
            mid.has(p) ==> now.files[p].content() == mid.files[p].content(),
    ensures
        placed(disk, now, dir, new, seq, wire),
{
    reveal(placed);
    lemma_same_contents(mid, now, dir);
    lemma_segments_on_disk(mid, dir);
    let segs = segments(mid, dir);
    assert(mid.has(segs[segs.len() - 1]));
}

impl<St: Storage> Journal<St> {
    /// Where a frame goes is decided by the last segment on the disk.
    proof fn lemma_rolls(&self, disk: DiskModel, len: nat)
        requires
            self.wf(disk),
            len > 0,
        ensures
            self.needs_roll(len) == rolls(disk, self.dir(), self.segment_bytes(), len),
    {
    }

    pub closed spec fn dir(&self) -> Seq<u8> {
        self.config.dir@
    }

    pub closed spec fn fsync(&self) -> FsyncPolicy {
        self.config.fsync
    }

    pub closed spec fn segment_bytes(&self) -> u64 {
        self.config.segment_bytes
    }

    /// The seq of the last appended frame.
    pub closed spec fn tip(&self) -> u64 {
        self.last_seq.0
    }

    /// Whether frames were appended since the last sync.
    pub closed spec fn pending(&self) -> bool {
        self.dirty
    }

    /// Whether a frame of `len` bytes goes to a new segment.
    pub closed spec fn needs_roll(&self, len: nat) -> bool {
        match self.current {
            None => true,
            Some(seg) => seg.size > 28 && seg.size + len > self.config.segment_bytes,
        }
    }

    /// The writer stands at the end of the well-kept journal on the disk.
    pub closed spec fn wf(&self, disk: DiskModel) -> bool {
        let dir = self.config.dir@;
        &&& well_kept(disk, dir)
        &&& held(disk, dir).next == self.last_seq.0 + 1
        &&& held(disk, dir).epoch == self.epoch
        &&& match self.current {
            None => segments(disk, dir).len() == 0,
            Some(seg) => {
                &&& segments(disk, dir).len() > 0
                &&& seg.file.path() == segments(disk, dir).last()
                &&& seg.file.opened_in() == disk.epoch
                &&& seg.size == clipped(disk.files[segments(disk, dir).last()].content().len())
            },
        }
    }

    /// Everything is durable but what was appended since the last sync.
    pub closed spec fn settled(&self, disk: DiskModel) -> bool {
        let dir = self.config.dir@;
        &&& sealed(disk, dir)
        &&& segments(disk, dir).len() > 0 && !self.dirty ==> disk.files[segments(
            disk,
            dir,
        ).last()].unsynced.len() == 0
    }

    /// What [`Self::wf`] says that callers need.
    pub proof fn lemma_wf(&self, disk: DiskModel)
        requires
            self.wf(disk),
        ensures
            well_kept(disk, self.dir()),
            held(disk, self.dir()).next == self.tip() + 1,
    {
    }

    /// What [`Self::settled`] says that callers need.
    pub proof fn lemma_settled(&self, disk: DiskModel)
        requires
            self.settled(disk),
        ensures
            sealed(disk, self.dir()),
            !self.pending() ==> forall|i: int|
                0 <= i < segments(disk, self.dir()).len() ==> disk.files[
                    #[trigger] segments(disk, self.dir())[i]
                ].unsynced.len() == 0,
    {
        let segs = segments(disk, self.dir());
        if !self.pending() {
            assert forall|i: int| 0 <= i < segs.len() implies disk.files[
                #[trigger] segs[i]
            ].unsynced.len() == 0 by {
                if i == segs.len() - 1 {
                    assert(segs[i] == segs.last());
                }
            }
        }
    }

    /// Where nothing is unsynced, everything is settled.
    pub proof fn lemma_all_synced(&self, disk: DiskModel)
        requires
            self.wf(disk),
            forall|i: int|
                0 <= i < segments(disk, self.dir()).len() ==> disk.files[
                    #[trigger] segments(disk, self.dir())[i]
                ].unsynced.len() == 0,
        ensures
            self.settled(disk),
    {
        let segs = segments(disk, self.dir());
        if segs.len() > 0 {
            let last = disk.files[segs[segs.len() - 1]];
            lemma_recover_order(segs, disk.files, segs.len());
            assert(starts_by(last.content(), held(disk, self.dir()).next));
            crate::segment::lemma_header_len(last.content());
            assert(last.content() =~= last.synced);
        }
    }

    /// Whether a new segment, should one be needed, would not collide with a
    /// file that is there.
    pub closed spec fn ready(&self, disk: DiskModel) -> bool {
        let path = crate::paths::numbered(
            self.config.dir@,
            (self.last_seq.0 + 1) as u64,
            crate::paths::seg_ext(),
        );
        match self.current {
            None => !disk.has(path),
            Some(seg) => seg.size > 28 ==> !disk.has(path),
        }
    }

    /// A frame that fits a segment runs into no left-over file.
    pub open spec fn roomy(&self, disk: DiskModel) -> bool {
        forall|len: nat| #[trigger]
            self.needs_roll(len) && 28 + len <= self.segment_bytes() ==> !disk.has(
                crate::paths::numbered(
                    self.dir(),
                    (self.tip() + 1) as u64,
                    crate::paths::seg_ext(),
                ),
            )
    }

    /// A journal whose last segment is empty can fill it.
    proof fn lemma_roomy(&self, disk: DiskModel)
        requires
            self.wf(disk),
            self.current matches Some(seg) ==> seg.size == disk.files[segments(
                disk,
                self.dir(),
            ).last()].content().len(),
        ensures
            self.roomy(disk),
    {
        let segs = segments(disk, self.dir());
        if segs.len() > 0 {
            let first = first_of_last(disk, self.dir());
            let body = disk.files[segs.last()].content().skip(28);
            lemma_recover_order(segs, disk.files, segs.len());
            crate::segment::lemma_header_len(disk.files[segs.last()].content());
            crate::segment::lemma_scan(body, first);
            if first > self.tip() {
                assert(crate::segment::scan(body, first).frames.len() == 0);
                assert(body.len() == 0);
            } else {
                self.lemma_filled(disk);
            }
        } else {
            self.lemma_filled(disk);
        }
        self.lemma_ready(disk, disk);
    }

    /// What [`Self::ready`] says that callers need.
    pub proof fn lemma_ready(&self, before: DiskModel, after: DiskModel)
        ensures
            ({
                let path = crate::paths::numbered(
                    self.dir(),
                    (self.tip() + 1) as u64,
                    crate::paths::seg_ext(),
                );
                &&& self.ready(before) ==> forall|len: nat| #[trigger]
                    self.needs_roll(len) ==> !before.has(path)
                &&& self.ready(before) && (after.has(path) ==> before.has(path)) ==> self.ready(
                    after,
                )
                &&& !before.has(path) ==> self.ready(before)
            }),
    {
    }

    /// Where the last segment holds a frame, no segment is waiting for its
    /// first one.
    proof fn lemma_filled(&self, disk: DiskModel)
        requires
            self.wf(disk),
            segments(disk, self.dir()).len() > 0 ==> first_of_last(disk, self.dir()) <= self.tip(),
        ensures
            self.ready(disk),
    {
        let dir = self.dir();
        let ext = crate::paths::seg_ext();
        let next = (self.tip() + 1) as u64;
        let path = crate::paths::numbered(dir, next, ext);
        let segs = segments(disk, dir);
        if disk.has(path) {
            crate::paths::lemma_numbered(dir, next, ext);
            assert(crate::listing::wanted(disk, dir, ext)(path));
            let i = choose|i: int| 0 <= i < segs.len() && segs[i] == path;
            lemma_recover_order(segs, disk.files, segs.len());
            let (first, _) = crate::segment::read_header(disk.files[segs[i]].content())->Ok_0;
            let (end, _) = crate::segment::read_header(disk.files[segs.last()].content())->Ok_0;
            assert(starts_by(disk.files[segs[i]].content(), held(disk, dir).next));
            assert(starts_by(
                disk.files[segs[segs.len() - 1]].content(),
                held(disk, dir).next,
            ));
            assert(segs[segs.len() - 1] == crate::paths::numbered(dir, end, ext));
            crate::paths::lemma_numbered_sorts(dir, end, next, ext);
            if i < segs.len() - 1 {
                assert(crate::paths::sorts_before(segs[i], segs[segs.len() - 1]));
                crate::paths::lemma_sorts_transitive(
                    segs[i],
                    segs[segs.len() - 1],
                    segs[i],
                );
                crate::paths::lemma_sorts_irreflexive(segs[i]);
            }
        }
    }

    /// The seq of the last appended frame (the genesis sentinel if there is none).
    pub fn last_seq(&self) -> (r: SeqNo)
        ensures
            r.0 == self.tip(),
    {
        self.last_seq
    }

    /// Forces outstanding appends to stable storage.
    pub fn sync(&mut self, storage: &mut St) -> (r: Result<(), JournalError>)
        ensures
            final(self).dir() == old(self).dir(),
            final(self).fsync() == old(self).fsync(),
            final(self).segment_bytes() == old(self).segment_bytes(),
            final(self).tip() == old(self).tip(),
            forall|len: nat| final(self).needs_roll(len) == old(self).needs_roll(len),
            final(storage).view().epoch == old(storage).view().epoch,
            final(storage).view().files.dom() == old(storage).view().files.dom(),
            forall|p: Seq<u8>| #[trigger]
                old(storage).view().has(p) ==> final(storage).view().files[p].content() == old(
                    storage,
                ).view().files[p].content(),
            old(self).ready(old(storage).view()) ==> final(self).ready(final(storage).view()),
            r is Ok ==> !final(self).pending(),
            r is Err ==> old(self).pending() && final(self).pending(),
            r is Ok && !old(self).pending() ==> final(storage).view() == old(storage).view(),
            r matches Err(e) ==> e is Io,
            final(storage).reliable() == old(storage).reliable(),
            old(self).wf(old(storage).view()) ==> synced_journal(
                old(self),
                final(self),
                old(storage).view(),
                final(storage).view(),
                r is Ok,
            ),
            old(self).wf(old(storage).view()) && r is Ok ==> final(storage).view() == flushed_end(
                old(storage).view(),
                old(self).dir(),
                old(self).pending(),
            ),
            old(self).wf(old(storage).view()) && old(storage).reliable() ==> r is Ok,
    {
        let ghost before = storage.view();
        let ghost dir = self.config.dir@;
        let ghost segs = segments(before, dir);
        let ghost kept = self.wf(before);
        if self.dirty {
            let mut current = None;
            std::mem::swap(&mut current, &mut self.current);
            if let Some(mut seg) = current {
                proof {
                    if kept {
                        assert(crate::listing::wanted(before, dir, crate::paths::seg_ext())(
                            segs.last(),
                        ));
                    }
                }
                let done = seg.file.sync_data(storage);
                proof {
                    let after = storage.view();
                    assert(after.files.dom() =~= before.files.dom());
                    if kept {
                        let last = segs.last();
                        lemma_same_contents(before, after, dir);
                        assert forall|i: int| 0 <= i < segs.len() - 1 implies
                            #[trigger] after.files[segs[i]] == before.files[segs[i]] by {
                            lemma_distinct_paths(before, dir, i, segs.len() - 1);
                        }
                    }
                }
                self.current = Some(seg);
                match done {
                    Ok(()) => {
                        self.dirty = false;
                    },
                    Err(e) => {
                        return Err(JournalError::Io(e));
                    },
                }
            } else {
                self.dirty = false;
            }
        }
        self.last_sync = instant_now();
        Ok(())
    }
}

/// What a sync does to a well-kept journal: it holds what it held, and on
/// success nothing of it is at risk any more.
pub open spec fn synced_journal<St: Storage>(
    before: &Journal<St>,
    after: &Journal<St>,
    disk: DiskModel,
    now: DiskModel,
    ok: bool,
) -> bool {
    let dir = before.dir();
    let segs = segments(disk, dir);
    &&& after.wf(now)
    &&& segments(now, dir) == segs
    &&& held(now, dir) == held(disk, dir)
    &&& before.settled(disk) ==> after.settled(now)
    &&& forall|p: Seq<u8>| #[trigger]
        disk.has(p) && !crate::paths::has_extension(p, crate::paths::seg_ext()) ==> now.files[p]
            == disk.files[p]
    &&& ok && before.pending() && segs.len() > 0 ==> now == disk.with(
        segs.last(),
        disk.files[segs.last()].flushed(),
    )
}

/// Disks with the same paths and contents hold the same journal.
pub proof fn lemma_same_contents(before: DiskModel, after: DiskModel, dir: Seq<u8>)
    requires
        well_kept(before, dir),
        after.files.dom() == before.files.dom(),
        forall|p: Seq<u8>| #[trigger]
            before.has(p) ==> after.files[p].content() == before.files[p].content(),
    ensures
        well_kept(after, dir),
        segments(after, dir) == segments(before, dir),
        held(after, dir) == held(before, dir),
{
    let ext = crate::paths::seg_ext();
    let segs = segments(before, dir);
    crate::listing::lemma_listing_of_same_paths(before, after, dir, ext);
    assert forall|p: Seq<u8>| after.has(p) == before.has(p) by {
        assert(after.files.dom().contains(p) == before.files.dom().contains(p));
    }
    assert(crate::listing::wanted(before, dir, ext) =~= crate::listing::wanted(after, dir, ext));
    assert forall|i: int| 0 <= i < segs.len() implies before.files[#[trigger] segs[i]].content()
        == after.files[segs[i]].content() by {
        assert(crate::listing::wanted(before, dir, ext)(segs[i]));
        assert(before.has(segs[i]));
    }
    lemma_recover_frame(segs, before.files, after.files, segs.len());
    assert forall|i: int| 0 <= i < segments(after, dir).len() implies (
    crate::segment::read_header(
        after.files[#[trigger] segments(after, dir)[i]].content(),
    ) matches Ok((first, _)) ==> segments(after, dir)[i] == crate::paths::numbered(
        dir,
        first,
        ext,
    )) by {
        assert(segments(before, dir)[i] == segs[i]);
    }
}

/// The views of frames.
pub open spec fn records(frames: Seq<Frame>) -> Seq<Record> {
    frames.map_values(|f: Frame| f@)
}

/// Reads a segment's frames, numbered from `expected` on: the leading intact
/// ones, how many bytes they take, and how reading ended.
pub fn scan_segment(body: &[u8], expected: u64) -> (r: (Vec<Frame>, usize, ScanEnd))
    ensures
        crate::segment::scan(body@, expected) == (crate::segment::Scan {
            frames: records(r.0@),
            used: r.1 as nat,
            end: r.2,
        }),
{
    let mut frames: Vec<Frame> = Vec::new();
    let mut cursor = body;
    let mut next: u64 = expected;
    let ghost whole = crate::segment::scan(body@, expected);
    assert(records(frames@) =~= Seq::<Record>::empty());
    assert(body@.skip(0) =~= body@);
    assert(Seq::<Record>::empty() + whole.frames =~= whole.frames);
    while cursor.len() > 0
        invariant
            cursor@.len() <= body@.len(),
            whole == crate::segment::scan(body@, expected),
            ({
                let rest = crate::segment::scan(cursor@, next);
                &&& whole.frames == records(frames@) + rest.frames
                &&& whole.used == (body@.len() - cursor@.len()) + rest.used
                &&& whole.end == rest.end
            }),
        decreases cursor@.len(),
    {
        let ghost at = cursor@;
        let used: usize = body.len() - cursor.len();
        match Frame::read_from(&mut cursor) {
            Ok(frame) => {
                proof {
                    crate::frame::law_frame_is_canonical(at);
                    crate::frame::lemma_wire_len(frame@);
                }
                if frame.seq.0 != next {
                    let found: u64 = frame.seq.0;
                    assert(records(frames@) + Seq::<Record>::empty() =~= records(frames@));
                    return (frames, used, ScanEnd::Gap(found));
                }
                if next == u64::MAX {
                    assert(records(frames@) + Seq::<Record>::empty() =~= records(frames@));
                    return (frames, used, ScanEnd::Exhausted);
                }
                let ghost so_far = frames@;
                let ghost f = frame@;
                frames.push(frame);
                next = next + 1;
                proof {
                    let rest = crate::segment::scan(cursor@, next);
                    assert(records(frames@) =~= records(so_far).push(f));
                    assert(records(so_far) + (seq![f] + rest.frames) =~= records(frames@)
                        + rest.frames);
                }
            },
            Err(e) => {
                assert(records(frames@) + Seq::<Record>::empty() =~= records(frames@));
                return (frames, used, ScanEnd::Bad(e));
            },
        }
    }
    assert(records(frames@) + Seq::<Record>::empty() =~= records(frames@));
    (frames, body.len(), ScanEnd::Clean)
}

/// Cutting a torn tail off leaves the journal that was read.
pub proof fn lemma_after_recovery(disk: DiskModel, dir: Seq<u8>)
    requires
        crate::paths::is_listing(
            segments(disk, dir),
            crate::listing::wanted(disk, dir, crate::paths::seg_ext()),
        ),
        recover(disk, dir) is Ok,
    ensures
        ({
            let found = recover(disk, dir)->Ok_0;
            let after = after_recovery(disk, dir, found);
            &&& found.torn matches Some(offset) ==> segments(disk, dir).len() > 0 && 28 <= offset
                <= disk.files[segments(disk, dir).last()].content().len()
            &&& segments(after, dir) == segments(disk, dir)
            &&& after.files.dom() == disk.files.dom()
            &&& recover(after, dir) == Ok::<Recovery, JournalFault>(
                Recovery { torn: None, ..found },
            )
            &&& names_right(disk, dir) && found.frames.len() < found.next ==> well_kept(after, dir)
        }),
{
    let found = recover(disk, dir)->Ok_0;
    let after = after_recovery(disk, dir, found);
    let segs = segments(disk, dir);
    let ext = crate::paths::seg_ext();
    let n = segs.len();
    if let Some(offset) = found.torn {
        let last = segs.last();
        let bytes = disk.files[last].content();
        assert(crate::listing::wanted(disk, dir, ext)(last));
        assert(disk.has(last));
        let (start, epoch) = crate::segment::read_header(bytes)->Ok_0;
        crate::segment::lemma_header_len(bytes);
        let body = crate::segment::scan(bytes.skip(28), start);
        crate::segment::lemma_scan(bytes.skip(28), start);
        let cut = bytes.take(offset as int);
        assert(after.files.dom() =~= disk.files.dom());
        crate::listing::lemma_listing_of_same_paths(disk, after, dir, ext);
        assert forall|p: Seq<u8>| after.has(p) == disk.has(p) by {
            assert(after.files.dom().contains(p) == disk.files.dom().contains(p));
        }
        assert(crate::listing::wanted(disk, dir, ext) =~= crate::listing::wanted(
            after,
            dir,
            ext,
        ));
        assert(after.files[last].content() =~= cut);
        assert forall|i: int| 0 <= i < n - 1 implies disk.files[#[trigger] segs[i]].content()
            == after.files[segs[i]].content() by {
            lemma_distinct_paths(disk, dir, i, n - 1);
        }
        lemma_recover_frame(segs, disk.files, after.files, (n - 1) as nat);
        assert(bytes =~= cut + bytes.skip(offset as int));
        crate::segment::lemma_header_prefix(cut, bytes.skip(offset as int));
        assert(cut.skip(28) =~= bytes.skip(28).take(body.used as int));
        crate::segment::lemma_scan_frames(body.frames, start, Seq::empty());
        assert(cut.skip(28) + Seq::<u8>::empty() =~= cut.skip(28));
        assert(body.frames + Seq::<Record>::empty() =~= body.frames);
        assert forall|i: int|
            0 <= i < segments(after, dir).len() && names_right(disk, dir) implies (
        crate::segment::read_header(
            after.files[#[trigger] segments(after, dir)[i]].content(),
        ) matches Ok((first, _)) ==> segments(after, dir)[i] == crate::paths::numbered(
            dir,
            first,
            ext,
        )) by {
            assert(segments(disk, dir)[i] == segs[i]);
        }
    }
}

impl<St: Storage> Journal<St> {
    /// Opens (or creates) the journal at `config.dir`, validating and
    /// replaying every segment. A torn tail in the final segment is truncated
    /// to the last intact frame; corruption anywhere else is an error.
    ///
    /// A compacted journal starts at some seq above 1; the stream is
    /// validated gapless from the first remaining segment on.
    pub fn open_with(config: JournalConfig, storage: &mut St) -> (r: Result<
        Recovered<St>,
        JournalError,
    >)
        ensures
            final(storage).reliable() == old(storage).reliable(),
            match r {
                Ok(rec) => {
                    let disk = old(storage).view();
                    let dir = config.dir@;
                    &&& recover(disk, dir) is Ok
                    &&& crate::paths::is_listing(
                        segments(disk, dir),
                        crate::listing::wanted(disk, dir, crate::paths::seg_ext()),
                    )
                    &&& ({
                        let found = recover(disk, dir)->Ok_0;
                        &&& records(rec.frames@) == found.frames
                        &&& rec.truncated_torn_tail == (found.torn is Some)
                        &&& rec.journal.tip() == seq_before(found.next)
                        &&& rec.first_seq.0 == (if found.frames.len() > 0 {
                            found.frames[0].seq as int
                        } else {
                            seq_before(found.next) + 1
                        })
                        &&& final(storage).view() == after_recovery(disk, dir, found)
                        &&& names_right(disk, dir) && found.frames.len() < found.next ==> rec.journal.wf(
                            final(storage).view(),
                        ) && rec.journal.roomy(final(storage).view())
                    })
                    &&& rec.journal.dir() == dir
                    &&& rec.journal.fsync() == config.fsync
                    &&& rec.journal.segment_bytes() == config.segment_bytes
                    &&& !rec.journal.pending()
                },
                Err(e) => e is Io || recover(old(storage).view(), config.dir@) == Err::<
                    Recovery,
                    JournalFault,
                >(e@),
            },
            old(storage).reliable() ==> match recover(old(storage).view(), config.dir@) {
                Ok(_) => r is Ok,
                Err(fault) => r matches Err(e) && e@ == fault,
            },
    {
        let ghost disk = storage.view();
        let ghost dir = config.dir@;
        let ghost segs = segments(disk, dir);
        if let Err(e) = storage.create_dir_all(config.dir.as_slice()) {
            return Err(JournalError::Io(e));
        }
        let ext = seg_extension();
        let paths = match sorted_listing(&*storage, config.dir.as_slice(), ext.as_slice()) {
            Ok(l) => l,
            Err(e) => {
                return Err(JournalError::Io(e));
            },
        };
        assert(paths@.map_values(|p: Vec<u8>| p@) == segs);
        let mut frames: Vec<Frame> = Vec::new();
        let mut next: u64 = 1;
        let mut epoch: u64 = 0;
        let mut torn: Option<u64> = None;
        let mut i: usize = 0;
        assert(records(frames@) =~= Seq::<Record>::empty());
        while i < paths.len()
            invariant
                i <= paths@.len(),
                disk == old(storage).view(),
                storage.view() == disk,
                storage.reliable() == old(storage).reliable(),
                dir == config.dir@,
                segs == segments(disk, dir),
                paths@.map_values(|p: Vec<u8>| p@) == segs,
                crate::paths::is_listing(
                    segs,
                    crate::listing::wanted(disk, dir, crate::paths::seg_ext()),
                ),
                i < paths@.len() ==> torn is None,
                i > 0 ==> disk.files[segs[i - 1]].content().len() <= usize::MAX,
                recover_upto(segs, disk.files, i as nat) == Ok::<Recovery, JournalFault>(
                    Recovery {
                        frames: records(frames@),
                        next,
                        epoch,
                        torn: match torn {
                            Some(n) => Some(n as nat),
                            None => None,
                        },
                    },
                ),
            decreases paths@.len() - i,
        {
            let path = paths[i].as_slice();
            assert(path@ == segs[i as int]);
            assert(crate::listing::wanted(disk, dir, crate::paths::seg_ext())(segs[i as int]));
            let last: bool = i + 1 == paths.len();
            proof {
                if recover_upto(segs, disk.files, (i + 1) as nat) is Err {
                    lemma_recover_error(segs, disk.files, (i + 1) as nat, segs.len());
                }
            }
            let bytes = match storage.read(path) {
                Ok(b) => b,
                Err(e) => {
                    return Err(JournalError::Io(e));
                },
            };
            let header = match parse_segment_header(bytes.as_slice()) {
                Ok(h) => h,
                Err(reason) => {
                    return Err(
                        JournalError::BadSegmentHeader { segment: copy_bytes(path), reason },
                    );
                },
            };
            let expected: u64 = if i == 0 {
                header.first_seq.0
            } else {
                next
            };
            if header.first_seq.0 != expected {
                return Err(
                    JournalError::NonContiguousSeq {
                        segment: copy_bytes(path),
                        expected: SeqNo(expected),
                        found: header.first_seq,
                    },
                );
            }
            proof {
                crate::segment::lemma_header_len(bytes@);
            }
            let body = vstd::slice::slice_subrange(
                bytes.as_slice(),
                SEGMENT_HEADER_LEN,
                bytes.len(),
            );
            assert(body@ =~= bytes@.skip(28));
            proof {
                crate::segment::lemma_scan(body@, expected);
            }
            let (mut more, used, end) = scan_segment(body, expected);
            let ghost so_far = frames@;
            let ghost added = more@;
            let count: usize = more.len();
            assert(records(added).len() == added.len());
            let reached: u64 = expected + count as u64;
            match end {
                ScanEnd::Clean => {},
                ScanEnd::Bad(e) => {
                    let offset: u64 = SEGMENT_HEADER_LEN as u64 + used as u64;
                    if last {
                        torn = Some(offset);
                    } else {
                        return Err(
                            JournalError::Corrupt {
                                segment: copy_bytes(path),
                                offset,
                                reason: frame_error_reason(&e),
                            },
                        );
                    }
                },
                ScanEnd::Gap(found) => {
                    return Err(
                        JournalError::NonContiguousSeq {
                            segment: copy_bytes(path),
                            expected: SeqNo(reached),
                            found: SeqNo(found),
                        },
                    );
                },
                ScanEnd::Exhausted => {
                    return Err(JournalError::SeqExhausted);
                },
            }
            frames.append(&mut more);
            assert(records(frames@) =~= records(so_far) + records(added));
            next = reached;
            epoch = header.epoch;
            assert(disk.files[segs[i as int]].content().len() == bytes.len());
            i = i + 1;
        }
        let ghost found = recover(disk, dir)->Ok_0;
        proof {
            lemma_after_recovery(disk, dir);
            lemma_recover_order(segs, disk.files, segs.len());
        }
        let n: usize = paths.len();
        let current = if n > 0 {
            let path = paths[n - 1].as_slice();
            assert(path@ == segs.last());
            assert(crate::listing::wanted(disk, dir, crate::paths::seg_ext())(segs.last()));
            if let Some(offset) = torn {
                if let Err(e) = storage.truncate(path, offset) {
                    return Err(JournalError::Io(e));
                }
            }
            let file = match storage.open_append(path) {
                Ok(f) => f,
                Err(e) => {
                    return Err(JournalError::Io(e));
                },
            };
            let size: u64 = match file.len(&*storage) {
                Ok(s) => s,
                Err(e) => {
                    return Err(JournalError::Io(e));
                },
            };
            Some(OpenSegment { file, size })
        } else {
            None
        };
        assert(storage.view() == after_recovery(disk, dir, found));
        let last_seq: u64 = if next == 0 {
            0
        } else {
            next - 1
        };
        let first_seq: SeqNo = if frames.len() > 0 {
            assert(records(frames@)[0] == frames@[0]@);
            frames[0].seq
        } else {
            SeqNo(last_seq + 1)
        };
        let journal = Journal {
            config,
            current,
            last_seq: SeqNo(last_seq),
            epoch,
            last_sync: instant_now(),
            dirty: false,
        };
        proof {
            if names_right(disk, dir) && found.frames.len() < found.next {
                assert(journal.wf(storage.view()));
                journal.lemma_roomy(storage.view());
            }
        }
        Ok(
            Recovered {
                journal,
                frames,
                first_seq,
                truncated_torn_tail: torn.is_some(),
            },
        )
    }
}

/// An error in one of the first segments is the error of the whole.
proof fn lemma_recover_error(
    paths: Seq<Seq<u8>>,
    files: Map<Seq<u8>, FileModel>,
    k: nat,
    n: nat,
)
    requires
        k <= n,
        recover_upto(paths, files, k) is Err,
    ensures
        recover_upto(paths, files, n) == recover_upto(paths, files, k),
    decreases n,
{
    if k < n {
        lemma_recover_error(paths, files, k, (n - 1) as nat);
    }
}

/// The number that a segment's file name gives.
pub open spec fn name_number(path: Seq<u8>, dir: Seq<u8>) -> Option<u64> {
    crate::paths::stem_number(crate::paths::stem(path, dir.len(), 3))
}

/// How many of the segments from the `i`-th on are followed by one that
/// starts at `cutoff + 1` or below.
pub open spec fn below_cutoff(segs: Seq<Seq<u8>>, dir: Seq<u8>, cutoff: u64, i: nat) -> nat
    decreases segs.len() - i,
{
    let second = name_number(segs[i as int + 1], dir);
    if i + 1 < segs.len() && second is Some && second->0 <= cutoff + 1 {
        1 + below_cutoff(segs, dir, cutoff, i + 1)
    } else {
        0
    }
}

/// The disk without the first `k` of `paths`.
pub open spec fn without_first(disk: DiskModel, paths: Seq<Seq<u8>>, k: nat) -> DiskModel
    decreases k,
{
    if k == 0 {
        disk
    } else {
        without_first(disk, paths, (k - 1) as nat).without(paths[k - 1])
    }
}

/// Some of the first `most` of `paths` were deleted, from the front on.
pub open spec fn cut_in_front(
    before: DiskModel,
    after: DiskModel,
    paths: Seq<Seq<u8>>,
    most: nat,
) -> bool {
    exists|k: nat|
        k <= most && k <= paths.len() && after == #[trigger] without_first(before, paths, k)
}

/// Some path's name is no number.
pub open spec fn some_name_is_no_number(paths: Seq<Seq<u8>>, dir: Seq<u8>) -> bool {
    exists|i: int| 0 <= i < paths.len() && name_number(#[trigger] paths[i], dir) is None
}

pub proof fn lemma_without_first(disk: DiskModel, paths: Seq<Seq<u8>>, k: nat)
    requires
        k <= paths.len(),
    ensures
        without_first(disk, paths, k).epoch == disk.epoch,
        forall|p: Seq<u8>| #[trigger]
            without_first(disk, paths, k).has(p) <==> disk.has(p) && !paths.take(
                k as int,
            ).contains(p),
        forall|p: Seq<u8>| #[trigger]
            without_first(disk, paths, k).has(p) ==> without_first(disk, paths, k).files[p]
                == disk.files[p],
    decreases k,
{
    if k > 0 {
        lemma_without_first(disk, paths, (k - 1) as nat);
        let d = without_first(disk, paths, k);
        let e = without_first(disk, paths, (k - 1) as nat);
        assert forall|p: Seq<u8>| #[trigger] d.has(p) <==> disk.has(p) && !paths.take(
            k as int,
        ).contains(p) by {
            let all = paths.take(k as int);
            let most = paths.take(k - 1);
            if all.contains(p) {
                let i = choose|i: int| 0 <= i < all.len() && all[i] == p;
                if i < k - 1 {
                    assert(most[i] == p);
                }
            }
            if most.contains(p) {
                let i = choose|i: int| 0 <= i < most.len() && most[i] == p;
                assert(all[i] == p);
            }
            if p == paths[k - 1] {
                assert(all[k - 1] == p);
            }
            assert(e.has(p) <==> disk.has(p) && !most.contains(p));
        }
        assert forall|p: Seq<u8>| #[trigger] d.has(p) implies d.files[p] == disk.files[p] by {
            assert(e.has(p));
        }
    }
}

/// Without its first segment a journal holds the frames of the others.
proof fn lemma_recover_tail(paths: Seq<Seq<u8>>, files: Map<Seq<u8>, FileModel>, k: nat)
    requires
        2 <= k <= paths.len(),
        recover_upto(paths, files, k) is Ok,
    ensures
        ({
            let found = recover_upto(paths, files, k)->Ok_0;
            let first = recover_upto(paths, files, 1)->Ok_0;
            &&& recover_upto(paths, files, 1) is Ok
            &&& first.frames.len() <= found.frames.len()
            &&& first.frames == found.frames.take(first.frames.len() as int)
            &&& recover_upto(paths.skip(1), files, (k - 1) as nat) == Ok::<Recovery, JournalFault>(
                Recovery { frames: found.frames.skip(first.frames.len() as int), ..found },
            )
        }),
    decreases k,
{
    let rest = paths.skip(1);
    let found = recover_upto(paths, files, k)->Ok_0;
    let before = recover_upto(paths, files, (k - 1) as nat)->Ok_0;
    assert(rest[k - 2] == paths[k - 1]);
    if k == 2 {
        let first = before;
        let bytes = files[paths[1]].content();
        let start = crate::segment::read_header(bytes)->Ok_0.0;
        let body = crate::segment::scan(bytes.skip(28), start);
        assert(found.frames.take(first.frames.len() as int) =~= first.frames);
        assert(found.frames.skip(first.frames.len() as int) =~= body.frames);
        assert(recover_upto(rest, files, 0) == Ok::<Recovery, JournalFault>(
            Recovery { frames: Seq::empty(), next: 1, epoch: 0, torn: None },
        ));
        assert(Seq::<Record>::empty() + body.frames =~= body.frames);
    } else {
        lemma_recover_tail(paths, files, (k - 1) as nat);
        let first = recover_upto(paths, files, 1)->Ok_0;
        let c = first.frames.len() as int;
        let bytes = files[paths[k - 1]].content();
        let start = crate::segment::read_header(bytes)->Ok_0.0;
        let body = crate::segment::scan(bytes.skip(28), start);
        assert(found.frames.take(c) =~= before.frames.take(c));
        assert(found.frames.skip(c) =~= before.frames.skip(c) + body.frames);
    }
}

/// Deleting the first of several segments drops exactly its frames.
#[verifier::spinoff_prover]
#[verifier::rlimit(40)]
pub proof fn lemma_drop_first_segment(before: DiskModel, after: DiskModel, dir: Seq<u8>)
    requires
        well_kept(before, dir),
        segments(before, dir).len() >= 2,
        after == before.without(segments(before, dir)[0]),
    ensures
        well_kept(after, dir),
        segments(after, dir) == segments(before, dir).skip(1),
        held(after, dir).next == held(before, dir).next,
        held(after, dir).epoch == held(before, dir).epoch,
        name_number(segments(before, dir)[1], dir) is Some,
        ({
            let second = name_number(segments(before, dir)[1], dir)->0;
            let dropped = held(before, dir).frames.len() - held(after, dir).frames.len();
            &&& 0 <= dropped
            &&& held(after, dir).frames == held(before, dir).frames.skip(dropped)
            &&& forall|i: int|
                0 <= i < dropped ==> (#[trigger] held(before, dir).frames[i]).seq < second
        }),
{
    let ext = crate::paths::seg_ext();
    let segs = segments(before, dir);
    let n = segs.len();
    let rest = segs.skip(1);
    let w = crate::listing::wanted(after, dir, ext);
    let v = crate::listing::wanted(before, dir, ext);
    assert forall|i: int, j: int|
        0 <= i < j < rest.len() implies #[trigger] crate::paths::sorts_before(
        rest[i],
        rest[j],
    ) by {
        assert(crate::paths::sorts_before(segs[i + 1], segs[j + 1]));
    }
    assert forall|i: int| 0 <= i < rest.len() implies w(#[trigger] rest[i]) by {
        assert(v(segs[i + 1]));
        lemma_distinct_paths(before, dir, 0, i + 1);
    }
    assert forall|p: Seq<u8>| #[trigger] w(p) implies rest.contains(p) by {
        assert(v(p));
        let i = choose|i: int| 0 <= i < segs.len() && segs[i] == p;
        assert(i > 0);
        assert(rest[i - 1] == p);
    }
    crate::listing::lemma_is_the_listing(rest, after, dir, ext);
    lemma_recover_tail(segs, before.files, n);
    lemma_recover_order(segs, before.files, n);
    assert forall|i: int| 0 <= i < rest.len() implies before.files[#[trigger] rest[i]].content()
        == after.files[rest[i]].content() by {
        lemma_distinct_paths(before, dir, 0, i + 1);
    }
    lemma_recover_frame(rest, before.files, after.files, rest.len());
    let found = held(before, dir);
    let first = recover_upto(segs, before.files, 1)->Ok_0;
    lemma_recover_order(segs, before.files, 1);
    let c = first.frames.len() as int;
    assert(recover_upto(segs, before.files, 2) is Ok) by {
        if recover_upto(segs, before.files, 2) is Err {
            lemma_recover_error(segs, before.files, 2, n);
        }
    }
    let second = crate::segment::read_header(before.files[segs[1]].content())->Ok_0.0;
    assert(second == first.next);
    assert(segs[1] == crate::paths::numbered(dir, second, ext));
    crate::paths::lemma_numbered(dir, second, ext);
    assert forall|i: int| 0 <= i < c implies (#[trigger] found.frames[i]).seq < second by {
        assert(first.frames[i] == found.frames.take(c)[i]);
    }
    assert forall|i: int| 0 <= i < segments(after, dir).len() implies (
    crate::segment::read_header(
        after.files[#[trigger] segments(after, dir)[i]].content(),
    ) matches Ok((first, _)) ==> segments(after, dir)[i] == crate::paths::numbered(
        dir,
        first,
        ext,
    )) by {
        assert(segs[i + 1] == rest[i]);
        lemma_distinct_paths(before, dir, 0, i + 1);
    }
}

impl<St: Storage> Journal<St> {
    /// Deletes the leading segments that are followed by one that starts at
    /// `cutoff + 1` or below, as their file names tell.
    fn remove_below(&self, storage: &mut St, cutoff: SeqNo) -> (r: Result<u64, JournalError>)
        ensures
            final(storage).reliable() == old(storage).reliable(),
            ({
                let disk = old(storage).view();
                let segs = segments(disk, self.dir());
                let most = below_cutoff(segs, self.dir(), cutoff.0, 0);
                &&& cut_in_front(disk, final(storage).view(), segs, most)
                &&& r matches Ok(n) ==> n == most && n <= segs.len() && final(storage).view()
                    == without_first(disk, segs, most)
                &&& r is Ok ==> crate::paths::is_listing(
                    segs,
                    crate::listing::wanted(disk, self.dir(), crate::paths::seg_ext()),
                )
                &&& r matches Err(e) ==> e is Io || (e is BadSegmentHeader
                    && some_name_is_no_number(segs, self.dir()))
                &&& old(storage).reliable() && !some_name_is_no_number(segs, self.dir())
                    ==> r is Ok
            }),
    {
        let ghost disk = storage.view();
        let ghost dir = self.config.dir@;
        let ghost segs = segments(disk, dir);
        assert(without_first(disk, segs, 0) == disk);
        let ext = seg_extension();
        let paths = match sorted_listing(&*storage, self.config.dir.as_slice(), ext.as_slice()) {
            Ok(l) => l,
            Err(e) => {
                return Err(JournalError::Io(e));
            },
        };
        let n: usize = paths.len();
        assert(paths@.map_values(|p: Vec<u8>| p@) == segs);
        if n <= 1 {
            return Ok(0);
        }
        let mut firsts: Vec<u64> = Vec::new();
        let mut i: usize = 0;
        while i < n
            invariant
                i <= n == paths@.len(),
                paths@.map_values(|p: Vec<u8>| p@) == segs,
                segs == segments(disk, dir),
                dir == self.config.dir@,
                disk == old(storage).view(),
                storage.view() == disk,
                storage.reliable() == old(storage).reliable(),
                without_first(disk, segs, 0) == disk,
                crate::paths::is_listing(
                    segs,
                    crate::listing::wanted(disk, dir, crate::paths::seg_ext()),
                ),
                firsts@.len() == i,
                forall|k: int|
                    0 <= k < i ==> name_number(#[trigger] segs[k], dir) == Some(firsts@[k]),
            decreases n - i,
        {
            let path = paths[i].as_slice();
            assert(path@ == segs[i as int]);
            assert(crate::listing::wanted(disk, dir, crate::paths::seg_ext())(segs[i as int]));
            assert(crate::paths::is_child(path@, dir));
            assert(path@.len() > dir.len() + 1);
            let len: usize = path.len();
            let name = vstd::slice::slice_subrange(path, self.config.dir.len() + 1, len - 4);
            match parse_stem(name) {
                Some(first) => {
                    firsts.push(first);
                },
                None => {
                    assert(name_number(segs[i as int], dir) is None);
                    return Err(
                        JournalError::BadSegmentHeader {
                            segment: copy_bytes(path),
                            reason: text("segment filename is not a seq"),
                        },
                    );
                },
            }
            i = i + 1;
        }
        let mut removed: usize = 0;
        while removed + 1 < n && (firsts[removed + 1] == 0 || firsts[removed + 1] - 1 <= cutoff.0)
            invariant
                removed < n == paths@.len(),
                paths@.map_values(|p: Vec<u8>| p@) == segs,
                segs == segments(disk, dir),
                dir == self.config.dir@,
                disk == old(storage).view(),
                storage.reliable() == old(storage).reliable(),
                crate::paths::is_listing(
                    segs,
                    crate::listing::wanted(disk, dir, crate::paths::seg_ext()),
                ),
                firsts@.len() == n,
                forall|k: int|
                    0 <= k < n ==> name_number(#[trigger] segs[k], dir) == Some(firsts@[k]),
                below_cutoff(segs, dir, cutoff.0, 0) == removed + below_cutoff(
                    segs,
                    dir,
                    cutoff.0,
                    removed as nat,
                ),
                storage.view() == without_first(disk, segs, removed as nat),
            decreases n - removed,
        {
            let path = paths[removed].as_slice();
            proof {
                let at = segs[removed as int];
                assert(name_number(segs[removed + 1], dir) == Some(firsts@[removed + 1]));
                assert(crate::listing::wanted(disk, dir, crate::paths::seg_ext())(at));
                lemma_without_first(disk, segs, removed as nat);
                let gone = segs.take(removed as int);
                if gone.contains(at) {
                    let k = choose|k: int| 0 <= k < gone.len() && gone[k] == at;
                    lemma_distinct_paths(disk, dir, k, removed as int);
                }
                assert(storage.view().has(at));
            }
            if let Err(e) = storage.remove(path) {
                return Err(JournalError::Io(e));
            }
            removed = removed + 1;
        }
        if removed > 0 {
            if let Err(e) = storage.sync_dir(self.config.dir.as_slice()) {
                return Err(JournalError::Io(e));
            }
        }
        Ok(removed as u64)
    }
}

/// The names of a well-kept journal's segments are numbers.
proof fn lemma_names_are_numbers(disk: DiskModel, dir: Seq<u8>)
    requires
        well_kept(disk, dir),
    ensures
        forall|i: int|
            0 <= i < segments(disk, dir).len() ==> name_number(
                #[trigger] segments(disk, dir)[i],
                dir,
            ) is Some,
{
    let segs = segments(disk, dir);
    let ext = crate::paths::seg_ext();
    lemma_recover_order(segs, disk.files, segs.len());
    assert forall|i: int| 0 <= i < segs.len() implies name_number(
        #[trigger] segs[i],
        dir,
    ) is Some by {
        assert(starts_by(disk.files[segs[i]].content(), held(disk, dir).next));
        let first = crate::segment::read_header(disk.files[segs[i]].content())->Ok_0.0;
        crate::paths::lemma_numbered(dir, first, ext);
    }
}

/// Deleting the leading segments below a cutoff drops only frames up to it,
/// and keeps the last segment.
pub proof fn lemma_drop_leading(disk: DiskModel, dir: Seq<u8>, cutoff: u64, k: nat)
    requires
        well_kept(disk, dir),
        k <= below_cutoff(segments(disk, dir), dir, cutoff, 0),
    ensures
        ({
            let after = without_first(disk, segments(disk, dir), k);
            let dropped = held(disk, dir).frames.len() - held(after, dir).frames.len();
            &&& k < segments(disk, dir).len() || k == 0
            &&& well_kept(after, dir)
            &&& after.epoch == disk.epoch
            &&& segments(after, dir) == segments(disk, dir).skip(k as int)
            &&& held(after, dir).next == held(disk, dir).next
            &&& held(after, dir).epoch == held(disk, dir).epoch
            &&& 0 <= dropped
            &&& held(after, dir).frames == held(disk, dir).frames.skip(dropped)
            &&& forall|i: int|
                0 <= i < dropped ==> (#[trigger] held(disk, dir).frames[i]).seq <= cutoff
        }),
    decreases k,
{
    let segs = segments(disk, dir);
    if k == 0 {
        assert(segs.skip(0) =~= segs);
        assert(held(disk, dir).frames.skip(0) =~= held(disk, dir).frames);
    } else {
        lemma_drop_leading(disk, dir, cutoff, (k - 1) as nat);
        lemma_below_cutoff(segs, dir, cutoff, 0, (k - 1) as nat);
        let before = without_first(disk, segs, (k - 1) as nat);
        let after = without_first(disk, segs, k);
        assert(segs.skip(k - 1)[0] == segs[k - 1]);
        assert(segs.skip(k - 1)[1] == segs[k as int]);
        lemma_drop_first_segment(before, after, dir);
        assert(segs.skip(k - 1).skip(1) =~= segs.skip(k as int));
        let all = held(disk, dir).frames;
        let mid = held(before, dir).frames;
        let d1 = all.len() - mid.len();
        let d2 = mid.len() - held(after, dir).frames.len();
        assert(all.skip(d1).skip(d2) =~= all.skip(d1 + d2));
        assert forall|i: int| 0 <= i < d1 + d2 implies (#[trigger] all[i]).seq <= cutoff by {
            if i >= d1 {
                assert(mid[i - d1] == all[i]);
            }
        }
    }
}

proof fn lemma_below_cutoff(segs: Seq<Seq<u8>>, dir: Seq<u8>, cutoff: u64, i: nat, j: nat)
    requires
        i <= j < i + below_cutoff(segs, dir, cutoff, i),
    ensures
        j + 1 < segs.len(),
        name_number(segs[j + 1 as int], dir) is Some,
        name_number(segs[j + 1 as int], dir)->0 <= cutoff + 1,
    decreases j - i,
{
    if i < j {
        lemma_below_cutoff(segs, dir, cutoff, i + 1, j);
    }
}

/// Compaction deletes exactly the segments in front of one that starts at
/// `cutoff + 1` or below: all of whose frames have a seq of at most `cutoff`. The
/// last segment is never among them. Compacting again with the same cutoff
/// deletes nothing.
pub proof fn law_compaction_is_thorough(disk: DiskModel, dir: Seq<u8>, cutoff: u64)
    requires
        well_kept(disk, dir),
    ensures
        ({
            let segs = segments(disk, dir);
            let gone = below_cutoff(segs, dir, cutoff, 0);
            let after = without_first(disk, segs, gone);
            &&& segs.len() > 0 ==> gone < segs.len()
            &&& forall|i: int|
                0 <= i < segs.len() - 1 ==> (i < gone <==> name_number(
                    #[trigger] segs[i + 1],
                    dir,
                )->0 <= cutoff + 1)
            &&& below_cutoff(segments(after, dir), dir, cutoff, 0) == 0
            &&& without_first(after, segments(after, dir), 0) == after
        }),
{
    let segs = segments(disk, dir);
    let gone = below_cutoff(segs, dir, cutoff, 0);
    lemma_drop_leading(disk, dir, cutoff, gone);
    lemma_names_are_numbers(disk, dir);
    lemma_below_cutoff_ends(segs, dir, cutoff, 0);
    lemma_below_cutoff_skip(segs, dir, cutoff, gone, 0);
    assert forall|i: int| 0 <= i < segs.len() - 1 implies (i < gone <==> name_number(
        #[trigger] segs[i + 1],
        dir,
    )->0 <= cutoff + 1) by {
        if i < gone {
            lemma_below_cutoff(segs, dir, cutoff, 0, i as nat);
        } else if i > gone {
            lemma_names_rise(disk, dir, gone as int + 1, i + 1);
        }
    }
}

/// Later segments have higher numbers in their names.
proof fn lemma_names_rise(disk: DiskModel, dir: Seq<u8>, i: int, j: int)
    requires
        well_kept(disk, dir),
        0 <= i < j < segments(disk, dir).len(),
    ensures
        name_number(segments(disk, dir)[i], dir)->0 < name_number(segments(disk, dir)[j], dir)->0,
{
    let segs = segments(disk, dir);
    let ext = crate::paths::seg_ext();
    lemma_recover_order(segs, disk.files, segs.len());
    assert(starts_by(disk.files[segs[i]].content(), held(disk, dir).next));
    assert(starts_by(disk.files[segs[j]].content(), held(disk, dir).next));
    let a = crate::segment::read_header(disk.files[segs[i]].content())->Ok_0.0;
    let b = crate::segment::read_header(disk.files[segs[j]].content())->Ok_0.0;
    crate::paths::lemma_numbered(dir, a, ext);
    crate::paths::lemma_numbered(dir, b, ext);
    assert(crate::paths::sorts_before(segs[i], segs[j]));
    crate::paths::lemma_sorts_irreflexive(segs[i]);
    if b < a {
        crate::paths::lemma_numbered_sorts(dir, b, a, ext);
        crate::paths::lemma_sorts_transitive(segs[j], segs[i], segs[j]);
        crate::paths::lemma_sorts_irreflexive(segs[j]);
    }
}

/// The run of segments below a cutoff ends in front of one that is not.
proof fn lemma_below_cutoff_ends(segs: Seq<Seq<u8>>, dir: Seq<u8>, cutoff: u64, i: nat)
    ensures
        ({
            let end = i + below_cutoff(segs, dir, cutoff, i);
            end + 1 < segs.len() ==> name_number(segs[end as int + 1], dir) is None || name_number(
                segs[end as int + 1],
                dir,
            )->0 > cutoff + 1
        }),
    decreases segs.len() - i,
{
    let second = name_number(segs[i as int + 1], dir);
    if i + 1 < segs.len() && second is Some && second->0 <= cutoff + 1 {
        lemma_below_cutoff_ends(segs, dir, cutoff, i + 1);
    }
}

/// Which segments are below a cutoff is a matter of those behind them.
proof fn lemma_below_cutoff_skip(segs: Seq<Seq<u8>>, dir: Seq<u8>, cutoff: u64, k: nat, i: nat)
    requires
        k <= segs.len(),
    ensures
        below_cutoff(segs.skip(k as int), dir, cutoff, i) == below_cutoff(
            segs,
            dir,
            cutoff,
            k + i,
        ),
    decreases segs.len() - i,
{
    let left = segs.skip(k as int);
    if i + 1 < left.len() {
        assert(left[i as int + 1] == segs[k + i as int + 1]);
        let second = name_number(left[i as int + 1], dir);
        if second is Some && second->0 <= cutoff + 1 {
            lemma_below_cutoff_skip(segs, dir, cutoff, k, i + 1);
        }
    }
}

/// The disk with all segments gone but a new one that starts at `seq`.
pub open spec fn reseated(disk: DiskModel, dir: Seq<u8>, pending: bool, seq: u64) -> DiskModel {
    let more = new_end(disk, dir, pending, seq);
    without_first(more, segments(more, dir), segments(disk, dir).len())
}

impl<St: Storage> Journal<St> {
    /// Compaction: deletes every segment whose frames all have
    /// `seq <= cutoff` (typically the oldest retained snapshot's seq). The
    /// active (last) segment is never deleted. Returns the number of segments
    /// removed.
    pub fn compact_below(&mut self, storage: &mut St, cutoff: SeqNo) -> (r: Result<
        u64,
        JournalError,
    >)
        ensures
            *final(self) == *old(self),
            final(storage).reliable() == old(storage).reliable(),
            old(self).wf(old(storage).view()) ==> ({
                let disk = old(storage).view();
                let dir = old(self).dir();
                let after = final(storage).view();
                let most = below_cutoff(segments(disk, dir), dir, cutoff.0, 0);
                let dropped = held(disk, dir).frames.len() - held(after, dir).frames.len();
                &&& final(self).wf(after)
                &&& old(self).settled(disk) ==> final(self).settled(after)
                &&& r matches Ok(n) ==> n == most && n <= segments(disk, dir).len() && segments(
                    after,
                    dir,
                ) == segments(disk, dir).skip(n as int) && after == without_first(
                    disk,
                    segments(disk, dir),
                    most,
                )
                &&& r matches Err(e) ==> e is Io
                &&& old(storage).reliable() ==> r is Ok
                &&& after.epoch == disk.epoch
                &&& forall|p: Seq<u8>| #[trigger]
                    after.has(p) ==> disk.has(p) && after.files[p] == disk.files[p]
                &&& forall|p: Seq<u8>|
                    disk.has(p) && !segments(disk, dir).contains(p) ==> #[trigger] after.has(p)
                &&& held(after, dir).next == held(disk, dir).next
                &&& 0 <= dropped
                &&& held(after, dir).frames == held(disk, dir).frames.skip(dropped)
                &&& forall|i: int|
                    0 <= i < dropped ==> (#[trigger] held(disk, dir).frames[i]).seq <= cutoff.0
            }),
    {
        let ghost disk = storage.view();
        let ghost dir = self.config.dir@;
        let ghost segs = segments(disk, dir);
        let ghost kept = self.wf(disk);
        proof {
            if kept {
                lemma_names_are_numbers(disk, dir);
            }
        }
        let r = self.remove_below(storage, cutoff);
        proof {
            if kept {
                let most = below_cutoff(segs, dir, cutoff.0, 0);
                let after = storage.view();
                let k = choose|k: nat|
                    k <= most && k <= segs.len() && after == #[trigger] without_first(disk, segs, k);
                assert(cut_in_front(disk, after, segs, most));
                lemma_drop_leading(disk, dir, cutoff.0, k);
                lemma_without_first(disk, segs, k);
                assert forall|p: Seq<u8>| disk.has(p) && !segs.contains(p) implies #[trigger] after.has(
                    p,
                ) by {
                    let gone = segs.take(k as int);
                    if gone.contains(p) {
                        let i = choose|i: int| 0 <= i < gone.len() && gone[i] == p;
                        assert(segs[i] == p);
                    }
                }
                if r is Ok {
                    lemma_drop_leading(disk, dir, cutoff.0, most);
                }
                let left = segs.skip(k as int);
                if segs.len() > 0 {
                    assert(left.last() == segs.last());
                    assert(crate::listing::wanted(after, dir, crate::paths::seg_ext())(left.last()));
                    assert(after.has(segs.last()));
                }
                if self.settled(disk) {
                    assert forall|i: int| 0 <= i < left.len() - 1 implies after.files[
                        #[trigger] left[i]
                    ].unsynced.len() == 0 by {
                        assert(left[i] == segs[i + k]);
                        assert(crate::listing::wanted(after, dir, crate::paths::seg_ext())(left[i]));
                        assert(after.has(left[i]));
                    }
                }
            }
        }
        r
    }

    /// Creates the segment that starts at `first_seq` and makes it the
    /// current one.
    fn start_segment(&mut self, storage: &mut St, first_seq: SeqNo) -> (r: Result<
        (),
        JournalError,
    >)
        ensures
            final(storage).reliable() == old(storage).reliable(),
            final(self).config == old(self).config,
            final(self).last_seq == old(self).last_seq,
            final(self).epoch == old(self).epoch,
            final(self).dirty == old(self).dirty,
            ({
                let path = crate::paths::numbered(
                    old(self).dir(),
                    first_seq.0,
                    crate::paths::seg_ext(),
                );
                &&& r is Ok ==> {
                    &&& !old(storage).view().has(path)
                    &&& final(storage).view() == old(storage).view().with(
                        path,
                        FileModel {
                            synced: crate::segment::segment_header(first_seq.0, old(self).epoch),
                            unsynced: Seq::empty(),
                        },
                    )
                    &&& final(self).current matches Some(seg) && seg.file.path() == path
                        && seg.file.opened_in() == old(storage).view().epoch && seg.size == 28
                }
                &&& r matches Err(e) ==> e is Io
                &&& old(storage).reliable() ==> (r is Ok <==> !old(storage).view().has(path))
                &&& old(storage).reliable() && r is Err ==> r->Err_0 == JournalError::Io(
                    IoError::AlreadyExists,
                )
            }),
    {
        let ext = seg_extension();
        let path = numbered_path(self.config.dir.as_slice(), first_seq.0, ext.as_slice());
        let ghost before = storage.view();
        let mut file = match storage.create_new(path.as_slice()) {
            Ok(f) => f,
            Err(e) => {
                return Err(JournalError::Io(e));
            },
        };
        let header = segment_header_bytes(first_seq, self.epoch);
        if let Err(e) = file.write_all(storage, header.as_slice()) {
            return Err(JournalError::Io(e));
        }
        proof {
            assert(header@.take(header@.len() as int) =~= header@);
            assert(Seq::<u8>::empty() + header@ =~= header@);
            assert(storage.view().files =~= before.files.insert(
                path@,
                FileModel { synced: Seq::empty(), unsynced: header@ },
            ));
        }
        if let Err(e) = file.sync_data(storage) {
            return Err(JournalError::Io(e));
        }
        proof {
            assert(storage.view().files =~= before.files.insert(
                path@,
                FileModel { synced: header@, unsynced: Seq::empty() },
            ));
        }
        if let Err(e) = storage.sync_dir(self.config.dir.as_slice()) {
            return Err(JournalError::Io(e));
        }
        self.current = Some(OpenSegment { file, size: SEGMENT_HEADER_LEN as u64 });
        Ok(())
    }

    /// Seals the current segment and starts the one at `first_seq`.
    fn roll_segment(&mut self, storage: &mut St, first_seq: SeqNo) -> (r: Result<
        (),
        JournalError,
    >)
        requires
            first_seq.0 == old(self).tip() + 1,
        ensures
            final(storage).reliable() == old(storage).reliable(),
            final(self).dir() == old(self).dir(),
            final(self).fsync() == old(self).fsync(),
            final(self).segment_bytes() == old(self).segment_bytes(),
            final(self).tip() == old(self).tip(),
            r is Ok ==> final(self).current is Some,
            r matches Err(e) ==> e is Io,
            old(self).wf(old(storage).view()) ==> ({
                let disk = old(storage).view();
                let dir = old(self).dir();
                let path = crate::paths::numbered(dir, first_seq.0, crate::paths::seg_ext());
                &&& r is Ok ==> {
                    &&& !disk.has(path)
                    &&& final(self).wf(final(storage).view())
                    &&& !final(self).pending()
                    &&& final(self).current matches Some(seg) && seg.size == 28
                    &&& segments(final(storage).view(), dir) == segments(disk, dir).push(path)
                    &&& final(storage).view().files[path].content()
                        == crate::segment::segment_header(first_seq.0, held(disk, dir).epoch)
                    &&& held(final(storage).view(), dir) == held(disk, dir)
                    &&& old(self).settled(disk) ==> final(self).settled(final(storage).view())
                    &&& final(storage).view().epoch == disk.epoch
                    &&& final(storage).view().files.dom() == disk.files.dom().insert(path)
                    &&& forall|p: Seq<u8>| #[trigger]
                        disk.has(p) ==> final(storage).view().files[p].content()
                            == disk.files[p].content()
                    &&& forall|p: Seq<u8>| #[trigger]
                        disk.has(p) && !crate::paths::has_extension(p, crate::paths::seg_ext())
                            ==> final(storage).view().files[p] == disk.files[p]
                }
                &&& r is Ok ==> final(storage).view() == new_end(
                    disk,
                    dir,
                    old(self).pending(),
                    first_seq.0,
                )
                &&& old(storage).reliable() ==> (r is Ok <==> !disk.has(path))
                &&& old(storage).reliable() && r is Err ==> r->Err_0 == JournalError::Io(
                    IoError::AlreadyExists,
                )
            }),
    {
        let ghost disk = storage.view();
        let ghost dir = self.config.dir@;
        let ghost kept = self.wf(disk);
        self.sync(storage)?;
        let ghost mid = storage.view();
        let ghost was = *self;
        let ghost path = crate::paths::numbered(dir, first_seq.0, crate::paths::seg_ext());
        proof {
            if kept {
                lemma_segments_on_disk(disk, dir);
            }
        }
        assert(mid.files.dom().contains(path) == disk.files.dom().contains(path));
        let r = self.start_segment(storage, first_seq);
        proof {
            if r is Ok && kept {
                let after = storage.view();
                assert(after.files.dom() =~= mid.files.dom().insert(path));
                assert forall|p: Seq<u8>| #[trigger] disk.has(p) implies after.files[p].content()
                    == disk.files[p].content() by {
                    assert(mid.files.dom().contains(p));
                    assert(mid.has(p));
                }
                crate::paths::lemma_numbered(dir, first_seq.0, crate::paths::seg_ext());
                assert forall|p: Seq<u8>| #[trigger]
                    disk.has(p) && !crate::paths::has_extension(
                        p,
                        crate::paths::seg_ext(),
                    ) implies after.files[p] == disk.files[p] by {
                    assert(p != path);
                }
                crate::segment::law_header_roundtrip(first_seq.0, self.epoch, Seq::empty());
                let header = crate::segment::segment_header(first_seq.0, self.epoch);
                assert(header + Seq::<u8>::empty() =~= header);
                lemma_new_segment(mid, after, dir);
                let segs = segments(mid, dir);
                let more = segments(after, dir);
                if was.settled(mid) {
                    assert forall|i: int| 0 <= i < more.len() - 1 implies after.files[
                        #[trigger] more[i]
                    ].unsynced.len() == 0 by {
                        assert(more[i] == segs[i]);
                        assert(crate::listing::wanted(mid, dir, crate::paths::seg_ext())(segs[i]));
                        assert(mid.has(segs[i]));
                    }
                }
            }
        }
        r
    }
}

impl<St: Storage> Journal<St> {
    /// Reopening: what a journal has written reads back in full, up to its
    /// tip, with no torn end and nothing to mend.
    pub proof fn law_reopening_gives_everything_back(&self, disk: DiskModel)
        requires
            self.wf(disk),
        ensures
            recover(disk, self.dir()) is Ok,
            held(disk, self.dir()).torn is None,
            held(disk, self.dir()).next == self.tip() + 1,
            after_recovery(disk, self.dir(), held(disk, self.dir())) == disk,
    {
    }
}

/// A segment that reading gets to the end of: a header that fits what came
/// before, and nothing behind it but frames without a gap.
pub open spec fn reads_through(path: Seq<u8>, bytes: Seq<u8>, so_far: Recovery, first: bool) -> bool {
    add_segment(so_far, path, bytes, first, false) is Ok
}

/// Damage in a sealed segment is refused, whatever comes behind it: only the
/// last segment may end in something that is no frame.
pub proof fn law_sealed_damage_is_refused(disk: DiskModel, dir: Seq<u8>, i: nat)
    requires
        i < segments(disk, dir).len() - 1,
        recover_upto(segments(disk, dir), disk.files, i) is Ok,
        !reads_through(
            segments(disk, dir)[i as int],
            disk.files[segments(disk, dir)[i as int]].content(),
            recover_upto(segments(disk, dir), disk.files, i)->Ok_0,
            i == 0,
        ),
    ensures
        recover(disk, dir) is Err,
        recover(disk, dir) == add_segment(
            recover_upto(segments(disk, dir), disk.files, i)->Ok_0,
            segments(disk, dir)[i as int],
            disk.files[segments(disk, dir)[i as int]].content(),
            i == 0,
            false,
        ),
{
    let segs = segments(disk, dir);
    lemma_refusal_stands(segs, disk.files, i + 1, segs.len());
}

/// One changed byte behind the header of a sealed segment is refused, and the
/// error tells the segment and where the frame that was hit starts: the `h`-th
/// of the segment, the one that holds the byte.
pub proof fn law_changed_byte_in_a_sealed_segment(
    disk: DiskModel,
    now: DiskModel,
    dir: Seq<u8>,
    i: nat,
    h: int,
    at: int,
    byte: u8,
)
    requires
        well_kept(disk, dir),
        i < segments(disk, dir).len() - 1,
        now.files.dom() == disk.files.dom(),
        forall|p: Seq<u8>| #[trigger]
            disk.has(p) && p != segments(disk, dir)[i as int] ==> now.files[p].content()
                == disk.files[p].content(),
        now.files[segments(disk, dir)[i as int]].content() == disk.files[segments(
            disk,
            dir,
        )[i as int]].content().update(at, byte),
        disk.files[segments(disk, dir)[i as int]].content()[at] != byte,
        0 <= h < segment_frames(disk, dir, i).len(),
        28 + crate::segment::frames_wire(segment_frames(disk, dir, i).take(h)).len() <= at < 28
            + crate::segment::frames_wire(segment_frames(disk, dir, i).take(h + 1)).len(),
    ensures
        ({
            let start = 28 + crate::segment::frames_wire(
                segment_frames(disk, dir, i).take(h),
            ).len();
            recover(now, dir) == Err::<Recovery, JournalFault>(
                JournalFault::Corrupt {
                    segment: segments(disk, dir)[i as int],
                    offset: start as u64,
                    reason: crate::segment::frame_error_text(
                        if at < start + 28 {
                            crate::frame::FrameError::HeaderCrc
                        } else {
                            crate::frame::FrameError::PayloadCrc
                        },
                    ),
                },
            )
        }),
{
    let segs = segments(disk, dir);
    let n = segs.len();
    let path = segs[i as int];
    crate::listing::lemma_listing_of_same_paths(disk, now, dir, crate::paths::seg_ext());
    lemma_segments_on_disk(disk, dir);
    assert forall|j: int| 0 <= j < i implies disk.files[#[trigger] segs[j]].content()
        == now.files[segs[j]].content() by {
        lemma_distinct_paths(disk, dir, j, i as int);
        assert(disk.has(segs[j]));
    }
    lemma_recover_frame(segs, disk.files, now.files, i);
    if recover_upto(segs, disk.files, i) is Err {
        lemma_refusal_stands(segs, disk.files, i, n);
    }
    if recover_upto(segs, disk.files, i + 1) is Err {
        lemma_refusal_stands(segs, disk.files, i + 1, n);
    }
    let bytes = disk.files[path].content();
    let hit = now.files[path].content();
    crate::segment::lemma_header_len(bytes);
    let (first, epoch) = crate::segment::read_header(bytes)->Ok_0;
    let body = bytes.skip(28);
    crate::segment::lemma_scan(body, first);
    crate::segment::lemma_frames_wire_parts(crate::segment::scan(body, first).frames, h + 1);
    assert(body.take(body.len() as int) =~= body);
    assert(body[at - 28] == bytes[at]);
    assert(crate::segment::scan(body, first).frames == segment_frames(disk, dir, i));
    crate::segment::lemma_scan_hit(body, first, h, at - 28, byte);
    let head = bytes.take(28);
    assert(bytes =~= head + body);
    assert(hit =~= head + body.update(at - 28, byte));
    crate::segment::lemma_header_prefix(head, body);
    crate::segment::lemma_header_prefix(head, body.update(at - 28, byte));
    assert(hit.skip(28) =~= body.update(at - 28, byte));
    law_sealed_damage_is_refused(now, dir, i);
}

/// The frames of the `i`-th segment.
pub open spec fn segment_frames(disk: DiskModel, dir: Seq<u8>, i: nat) -> Seq<Record> {
    let bytes = disk.files[segments(disk, dir)[i as int]].content();
    crate::segment::scan(bytes.skip(28), (crate::segment::read_header(bytes)->Ok_0).0).frames
}

/// Once a segment is refused, so are all that hold it.
proof fn lemma_refusal_stands(
    paths: Seq<Seq<u8>>,
    files: Map<Seq<u8>, FileModel>,
    k: nat,
    n: nat,
)
    requires
        k <= n,
        recover_upto(paths, files, k) is Err,
    ensures
        recover_upto(paths, files, n) == recover_upto(paths, files, k),
    decreases n - k,
{
    if k < n {
        lemma_refusal_stands(paths, files, k, (n - 1) as nat);
    }
}

/// The segments of a listing are files on the disk.
proof fn lemma_segments_on_disk(disk: DiskModel, dir: Seq<u8>)
    requires
        well_kept(disk, dir),
    ensures
        forall|i: int|
            0 <= i < segments(disk, dir).len() ==> disk.has(#[trigger] segments(disk, dir)[i]),
{
    assert forall|i: int| 0 <= i < segments(disk, dir).len() implies disk.has(
        #[trigger] segments(disk, dir)[i],
    ) by {
        assert(crate::listing::wanted(disk, dir, crate::paths::seg_ext())(
            segments(disk, dir)[i],
        ));
    }
}

impl<St: Storage> Journal<St> {
    /// Writes one frame behind the journal, without a sync.
    #[verifier::rlimit(80)]
    #[verifier::spinoff_prover]
    fn write_frame(&mut self, storage: &mut St, frame: &Frame) -> (r: Result<(), JournalError>)
        requires
            frame@.valid(),
        ensures
            final(storage).reliable() == old(storage).reliable(),
            counted(old(self), final(self), old(storage).view(), final(storage).view(), frame@, r),
            old(self).wf(old(storage).view()) ==> appended(
                old(self),
                final(self),
                old(storage).view(),
                final(storage).view(),
                frame@,
                r,
            ),
            r is Ok ==> final(self).pending(),
            r is Err ==> final(self).tip() == old(self).tip(),
            old(self).wf(old(storage).view()) && old(storage).reliable() ==> (r is Ok <==> old(
                self,
            ).accepts(old(storage).view(), frame@)),
            old(self).wf(old(storage).view()) ==> old(self).files(
                old(storage).view(),
                final(storage).view(),
                frame@,
                r,
                old(storage).reliable(),
            ),
    {
        let ghost disk = storage.view();
        let ghost dir = self.config.dir@;
        let ghost was = *self;
        let ghost kept = self.wf(disk);
        if self.last_seq.0 == u64::MAX {
            return Err(JournalError::SeqExhausted);
        }
        let expected: u64 = self.last_seq.0 + 1;
        if frame.seq.0 != expected {
            return Err(
                JournalError::OutOfOrderAppend { expected: SeqNo(expected), found: frame.seq },
            );
        }
        if expected == u64::MAX {
            return Err(JournalError::SeqExhausted);
        }
        let encoded_len: u64 = frame.encoded_len() as u64;
        let needs_roll: bool = match &self.current {
            None => true,
            Some(seg) => seg.size > SEGMENT_HEADER_LEN as u64 && (seg.size
                > self.config.segment_bytes || encoded_len > self.config.segment_bytes - seg.size),
        };
        assert(needs_roll == was.needs_roll(frame@.wire().len()));
        if needs_roll {
            self.roll_segment(storage, frame.seq)?;
        }
        let ghost mid = storage.view();
        let ghost ready = *self;
        let ghost segs = segments(mid, dir);
        proof {
            if kept {
                lemma_segments_on_disk(mid, dir);
            }
        }
        let mut current = None;
        std::mem::swap(&mut current, &mut self.current);
        match current {
            None => {
                assert(false);
                Ok(())
            },
            Some(mut seg) => {
                let bytes = frame.to_bytes();
                let done = seg.file.write_all(storage, bytes.as_slice());
                if done.is_ok() {
                    seg.size = seg.size.saturating_add(bytes.len() as u64);
                }
                self.current = Some(seg);
                if let Err(e) = done {
                    return Err(JournalError::Io(e));
                }
                self.last_seq = frame.seq;
                self.dirty = true;
                proof {
                    if kept {
                        let after = storage.view();
                        let last = segs.last();
                        assert(bytes@.take(bytes@.len() as int) =~= bytes@);
                        assert(after.files.dom() =~= mid.files.dom());
                        assert(after.files[last].content() =~= mid.files[last].content()
                            + frame@.wire());
                        lemma_append_to_last(mid, after, dir, frame@);
                        crate::frame::lemma_wire_len(frame@);
                        was.lemma_rolls(disk, frame@.wire().len());
                        assert forall|p: Seq<u8>| #[trigger] disk.has(p) implies mid.has(p) by {
                            assert(disk.files.dom().contains(p));
                            assert(mid.files.dom().contains(p));
                        }
                        assert(after =~= filed(
                            disk,
                            dir,
                            was.pending(),
                            was.segment_bytes(),
                            frame@,
                        ));
                        lemma_written(
                            disk,
                            mid,
                            after,
                            dir,
                            needs_roll,
                            frame@.seq,
                            frame@.wire(),
                        );
                        assert forall|i: int| 0 <= i < segs.len() - 1 implies
                            #[trigger] after.files[segs[i]] == mid.files[segs[i]] by {
                            lemma_distinct_paths(mid, dir, i, segs.len() - 1);
                        }
                        let ext = crate::paths::seg_ext();
                        let path = crate::paths::numbered(dir, frame@.seq, ext);
                        crate::paths::lemma_numbered(dir, frame@.seq, ext);
                        assert(crate::listing::wanted(mid, dir, ext)(last));
                        self.lemma_filled(after);
                        if was.settled(disk) {
                            crate::durability::lemma_durable_bounded(disk, dir);
                            if needs_roll {
                                ready.lemma_settled(mid);
                                crate::durability::lemma_all_durable(mid, dir);
                            }
                            crate::durability::lemma_durable_behind(mid, after, dir);
                        }
                        assert forall|p: Seq<u8>| #[trigger] disk.has(p) implies after.has(p) by {
                            assert(disk.files.dom().contains(p));
                            assert(mid.files.dom().contains(p));
                            assert(after.files.dom().contains(p));
                        }
                        assert forall|p: Seq<u8>| #[trigger]
                            disk.has(p) && !crate::paths::has_extension(
                                p,
                                ext,
                            ) implies after.files[p] == disk.files[p] by {
                            assert(p != last);
                        }
                        assert forall|p: Seq<u8>| #[trigger]
                            after.has(p) && !disk.has(p) implies crate::paths::is_child(p, dir)
                            && crate::paths::has_extension(p, ext) by {
                            assert(after.files.dom().contains(p));
                            assert(mid.files.dom().contains(p));
                            assert(!disk.files.dom().contains(p));
                            assert(p == path);
                        }
                    }
                }
                Ok(())
            },
        }
    }

    /// What became of the frame that comes next: it was written behind the
    /// journal or, on a disk that works, refused as [`filing`] says.
    pub open spec fn files(
        &self,
        disk: DiskModel,
        now: DiskModel,
        frame: Record,
        r: Result<(), JournalError>,
        works: bool,
    ) -> bool {
        let made = filing(disk, self.dir(), self.pending(), self.segment_bytes(), frame);
        &&& r is Ok ==> made == Ok::<DiskModel, JournalError>(now)
        &&& works && r is Err && frame.seq == self.tip() + 1 ==> made is Err && r->Err_0
            == made->Err_0
    }

    /// Whether appending `frame` succeeds as far as the journal decides: it
    /// is numbered next, a seq is left behind it, and a new segment that it
    /// needs is not there already.
    pub open spec fn accepts(&self, disk: DiskModel, frame: Record) -> bool {
        &&& frame.seq == self.tip() + 1
        &&& frame.seq < u64::MAX
        &&& !(self.needs_roll(frame.wire().len()) && disk.has(
            crate::paths::numbered(self.dir(), frame.seq, crate::paths::seg_ext()),
        ))
    }

    /// Syncs if the policy asks for it, given whether the group-commit window
    /// has closed.
    pub fn sync_by_policy(&mut self, storage: &mut St, window_closed: bool) -> (r: Result<
        (),
        JournalError,
    >)
        ensures
            old(self).wf(old(storage).view()) ==> final(self).wf(final(storage).view()),
            final(self).dir() == old(self).dir(),
            final(self).fsync() == old(self).fsync(),
            final(self).segment_bytes() == old(self).segment_bytes(),
            final(self).tip() == old(self).tip(),
            forall|len: nat| final(self).needs_roll(len) == old(self).needs_roll(len),
            final(storage).view().epoch == old(storage).view().epoch,
            final(storage).view().files.dom() == old(storage).view().files.dom(),
            forall|p: Seq<u8>| #[trigger]
                old(storage).view().has(p) ==> final(storage).view().files[p].content() == old(
                    storage,
                ).view().files[p].content(),
            old(self).wf(old(storage).view()) ==> {
                &&& held(final(storage).view(), old(self).dir()) == held(
                    old(storage).view(),
                    old(self).dir(),
                )
                &&& forall|p: Seq<u8>| #[trigger]
                    old(storage).view().has(p) && !crate::paths::has_extension(
                        p,
                        crate::paths::seg_ext(),
                    ) ==> final(storage).view().files[p] == old(storage).view().files[p]
                &&& old(self).settled(old(storage).view()) ==> final(self).settled(
                    final(storage).view(),
                )
            },
            old(self).ready(old(storage).view()) ==> final(self).ready(final(storage).view()),
            r is Ok ==> final(self).pending() == (old(self).pending() && !(match old(
                self,
            ).fsync() {
                FsyncPolicy::EveryFrame => true,
                FsyncPolicy::Micros(_) => window_closed,
                FsyncPolicy::Never => false,
            })),
            r is Err ==> final(self).pending(),
            r is Ok && final(self).pending() ==> final(storage).view() == old(storage).view(),
            old(self).wf(old(storage).view()) && r is Ok && !final(self).pending() ==> flushed_end(
                old(storage).view(),
                old(self).dir(),
                old(self).pending(),
            ) == final(storage).view(),
            r matches Err(e) ==> e is Io,
            final(storage).reliable() == old(storage).reliable(),
            old(self).wf(old(storage).view()) && old(storage).reliable() ==> r is Ok,
    {
        let due: bool = match self.config.fsync {
            FsyncPolicy::EveryFrame => true,
            FsyncPolicy::Micros(_) => window_closed,
            FsyncPolicy::Never => false,
        };
        if due {
            self.sync(storage)?;
        }
        Ok(())
    }

    /// Whether the group-commit window has closed, by the time that the clock
    /// shows since the last sync.
    fn window_closed(&self) -> (r: bool)
        ensures
            exists|elapsed: u128| r == #[trigger] self.fsync().over_after(elapsed),
    {
        let passed: Duration = elapsed_since(&self.last_sync);
        let elapsed: u128 = whole_micros(&passed);
        let r: bool = self.config.fsync.window_over(elapsed);
        assert(r == self.fsync().over_after(elapsed));
        r
    }

    /// Appends one frame. `frame.seq` must be exactly `last_seq + 1`.
    pub fn append(&mut self, storage: &mut St, frame: &Frame) -> (r: Result<(), JournalError>)
        requires
            frame@.valid(),
        ensures
            final(storage).reliable() == old(storage).reliable(),
            counted(old(self), final(self), old(storage).view(), final(storage).view(), frame@, r),
            old(self).wf(old(storage).view()) ==> appended(
                old(self),
                final(self),
                old(storage).view(),
                final(storage).view(),
                frame@,
                r,
            ),
            r is Ok && old(self).fsync() == FsyncPolicy::EveryFrame ==> !final(self).pending(),
            r is Ok && old(self).fsync() == FsyncPolicy::Micros(0) ==> !final(self).pending(),
            r is Ok && old(self).fsync() == FsyncPolicy::Never ==> final(self).pending(),
            old(self).wf(old(storage).view()) && old(storage).reliable() ==> (r is Ok <==> old(
                self,
            ).accepts(old(storage).view(), frame@)),
            old(self).wf(old(storage).view()) && old(self).fsync() == FsyncPolicy::Never ==> old(
                self,
            ).files(
                old(storage).view(),
                final(storage).view(),
                frame@,
                r,
                old(storage).reliable(),
            ),
            old(self).wf(old(storage).view()) && r is Ok ==> ({
                let written = filed(
                    old(storage).view(),
                    old(self).dir(),
                    old(self).pending(),
                    old(self).segment_bytes(),
                    frame@,
                );
                final(storage).view() == if final(self).pending() {
                    written
                } else {
                    flushed_end(written, old(self).dir(), true)
                }
            }),
    {
        let ghost disk = storage.view();
        let ghost kept = self.wf(disk);
        self.write_frame(storage, frame)?;
        let ghost mid = storage.view();
        let ghost written = *self;
        let closed: bool = self.window_closed();
        let r = self.sync_by_policy(storage, closed);
        proof {
            let now = storage.view();
            if kept && r is Ok && written.settled(mid) && !self.pending() {
                written.lemma_settled(mid);
                self.lemma_settled(now);
                crate::durability::lemma_all_durable(now, self.config.dir@);
                crate::durability::lemma_durable_bounded(mid, self.config.dir@);
            }
            assert forall|p: Seq<u8>| #[trigger] now.has(p) == mid.has(p) by {
                assert(now.files.dom().contains(p) == mid.files.dom().contains(p));
            }
            if kept {
                assert forall|p: Seq<u8>| #[trigger] disk.has(p) implies mid.has(p) && now.has(
                    p,
                ) by {}
                let dir = self.config.dir@;
                written.lemma_wf(mid);
                lemma_stays_placed(
                    disk,
                    mid,
                    now,
                    dir,
                    rolls(disk, dir, self.segment_bytes(), frame@.wire().len()),
                    frame@.seq,
                    frame@.wire(),
                );
            }
        }
        r
    }
}

/// What appending a frame does to the numbers, whatever is on the disk: one
/// that does not come next is refused, and nothing is written. Where the disk
/// fails, either the frame was not written and the tip stays, or it was written
/// and not synced, and waits for the next sync.
pub open spec fn counted<St: Storage>(
    before: &Journal<St>,
    after: &Journal<St>,
    disk: DiskModel,
    now: DiskModel,
    frame: Record,
    r: Result<(), JournalError>,
) -> bool {
    &&& after.dir() == before.dir()
    &&& after.fsync() == before.fsync()
    &&& after.segment_bytes() == before.segment_bytes()
    &&& match r {
        Ok(_) => frame.seq == before.tip() + 1 && frame.seq < u64::MAX && after.tip() == frame.seq,
        Err(e) => (e is Io && frame.seq == before.tip() + 1 && (after.tip() == before.tip() || (
        after.tip() == frame.seq && after.pending()))) || (*after == *before && now == disk
            && e@ == (if frame.seq != before.tip() + 1 && before.tip() < u64::MAX {
            JournalFault::OutOfOrderAppend {
                expected: (before.tip() + 1) as u64,
                found: frame.seq,
            }
        } else {
            JournalFault::SeqExhausted
        }) && (frame.seq == before.tip() + 1 ==> frame.seq == u64::MAX)),
    }
    &&& frame.seq != before.tip() + 1 ==> r is Err && *after == *before && now == disk
}

/// What an append does: on success the journal holds the frame behind what it
/// held; a frame that is not numbered next, or behind which no seq is left,
/// is refused and nothing changes. A failed write leaves the tip, and after a
/// failed sync the journal holds the frame, which waits for the next sync.
pub open spec fn appended<St: Storage>(
    before: &Journal<St>,
    after: &Journal<St>,
    disk: DiskModel,
    now: DiskModel,
    frame: Record,
    r: Result<(), JournalError>,
) -> bool {
    let dir = before.dir();
    &&& match r {
        Ok(_) => {
            &&& before.accepts(disk, frame)
            &&& after.wf(now)
            &&& after.tip() == frame.seq
            &&& after.dir() == dir
            &&& after.fsync() == before.fsync()
            &&& after.segment_bytes() == before.segment_bytes()
            &&& held(now, dir).frames == held(disk, dir).frames.push(frame)
            &&& placed(
                disk,
                now,
                dir,
                rolls(disk, dir, before.segment_bytes(), frame.wire().len()),
                frame.seq,
                frame.wire(),
            )
            &&& after.ready(now)
            &&& before.settled(disk) ==> after.settled(now) && crate::durability::durable_frames(
                now,
                dir,
            ) >= crate::durability::durable_frames(disk, dir)
            &&& now.epoch == disk.epoch
            &&& forall|p: Seq<u8>| #[trigger] disk.has(p) ==> now.has(p)
            &&& forall|p: Seq<u8>| #[trigger]
                disk.has(p) && !crate::paths::has_extension(p, crate::paths::seg_ext())
                    ==> now.files[p] == disk.files[p]
            &&& forall|p: Seq<u8>| #[trigger]
                now.has(p) && !disk.has(p) ==> crate::paths::is_child(p, dir)
                    && crate::paths::has_extension(p, crate::paths::seg_ext())
        },
        Err(e) => (e is Io && frame.seq == before.tip() + 1 && (after.tip() == before.tip() || {
            &&& after.wf(now)
            &&& after.tip() == frame.seq
            &&& after.pending()
            &&& held(now, dir).frames == held(disk, dir).frames.push(frame)
        })) || (*after == *before && now == disk && e@ == (if frame.seq != before.tip() + 1 {
            JournalFault::OutOfOrderAppend {
                expected: (before.tip() + 1) as u64,
                found: frame.seq,
            }
        } else {
            JournalFault::SeqExhausted
        }) && (frame.seq == before.tip() + 1 ==> frame.seq == u64::MAX)),
    }
}

/// The `i`-th of `frames` is the first that does not follow `tip` without a
/// gap, and the fault says so.
pub open spec fn out_of_order(
    frames: Seq<Record>,
    tip: u64,
    i: int,
    fault: JournalFault,
) -> bool {
    &&& 0 <= i < frames.len()
    &&& follow(frames.take(i), tip)
    &&& frames[i].seq != tip + 1 + i
    &&& fault == (JournalFault::OutOfOrderAppend {
        expected: if tip + 1 + i <= u64::MAX {
            (tip + 1 + i) as u64
        } else {
            u64::MAX
        },
        found: frames[i].seq,
    })
}

/// The seqs of `frames` follow `tip` without a gap.
pub open spec fn follow(frames: Seq<Record>, tip: u64) -> bool {
    forall|i: int| 0 <= i < frames.len() ==> (#[trigger] frames[i]).seq == tip + 1 + i
}

/// Where every segment but the first is named at or below the cutoff's
/// successor, all but the last are below the cutoff.
proof fn lemma_all_below(segs: Seq<Seq<u8>>, dir: Seq<u8>, cutoff: u64, i: nat)
    requires
        i < segs.len(),
        forall|k: int|
            0 <= k < segs.len() ==> (name_number(#[trigger] segs[k], dir) matches Some(n) && n
                <= cutoff + 1),
    ensures
        below_cutoff(segs, dir, cutoff, i) == segs.len() - 1 - i,
    decreases segs.len() - i,
{
    if i + 1 < segs.len() {
        assert(name_number(segs[i as int + 1], dir) is Some);
        lemma_all_below(segs, dir, cutoff, i + 1);
    }
}

/// Deleting the first segments leaves the others, sorted.
proof fn lemma_segments_without_first(disk: DiskModel, dir: Seq<u8>, k: nat)
    requires
        crate::paths::is_listing(
            segments(disk, dir),
            crate::listing::wanted(disk, dir, crate::paths::seg_ext()),
        ),
        k <= segments(disk, dir).len(),
    ensures
        ({
            let after = without_first(disk, segments(disk, dir), k);
            &&& segments(after, dir) == segments(disk, dir).skip(k as int)
            &&& crate::paths::is_listing(
                segments(after, dir),
                crate::listing::wanted(after, dir, crate::paths::seg_ext()),
            )
        }),
{
    let ext = crate::paths::seg_ext();
    let segs = segments(disk, dir);
    let after = without_first(disk, segs, k);
    let rest = segs.skip(k as int);
    let gone = segs.take(k as int);
    lemma_without_first(disk, segs, k);
    let w = crate::listing::wanted(after, dir, ext);
    let v = crate::listing::wanted(disk, dir, ext);
    assert forall|i: int, j: int|
        0 <= i < j < rest.len() implies #[trigger] crate::paths::sorts_before(
        rest[i],
        rest[j],
    ) by {
        assert(crate::paths::sorts_before(segs[i + k], segs[j + k]));
    }
    assert forall|i: int| 0 <= i < rest.len() implies w(#[trigger] rest[i]) by {
        assert(v(segs[i + k]));
        if gone.contains(rest[i]) {
            let j = choose|j: int| 0 <= j < gone.len() && gone[j] == rest[i];
            lemma_distinct_paths(disk, dir, j, i + k);
        }
        assert(after.has(rest[i]));
    }
    assert forall|p: Seq<u8>| #[trigger] w(p) implies rest.contains(p) by {
        assert(after.has(p));
        assert(v(p));
        let i = choose|i: int| 0 <= i < segs.len() && segs[i] == p;
        if i < k {
            assert(gone[i] == p);
        }
        assert(rest[i - k] == p);
    }
    crate::listing::lemma_is_the_listing(rest, after, dir, ext);
}

/// A directory whose one segment is nothing but a header.
proof fn lemma_fresh_journal(disk: DiskModel, dir: Seq<u8>, first: u64, epoch: u64)
    requires
        first >= 1,
        segments(disk, dir) == seq![
            crate::paths::numbered(dir, first, crate::paths::seg_ext()),
        ],
        crate::paths::is_listing(
            segments(disk, dir),
            crate::listing::wanted(disk, dir, crate::paths::seg_ext()),
        ),
        disk.files[segments(disk, dir)[0]].content() == crate::segment::segment_header(
            first,
            epoch,
        ),
    ensures
        well_kept(disk, dir),
        held(disk, dir) == (Recovery { frames: Seq::empty(), next: first, epoch, torn: None }),
{
    let segs = segments(disk, dir);
    let header = crate::segment::segment_header(first, epoch);
    crate::segment::law_header_roundtrip(first, epoch, Seq::empty());
    assert(header + Seq::<u8>::empty() =~= header);
    assert(header.skip(28).len() == 0);
    let body = crate::segment::scan(header.skip(28), first);
    let start = recover_upto(segs, disk.files, 0)->Ok_0;
    assert(start.frames + body.frames =~= Seq::<Record>::empty());
    assert(recover_upto(segs, disk.files, 1) == add_segment(
        start,
        segs[0],
        disk.files[segs[0]].content(),
        true,
        true,
    ));
}

impl<St: Storage> Journal<St> {
    /// Appends several frames with a single sync at the end. Their seqs must
    /// follow `last_seq` without a gap; if they do not, nothing is written.
    pub fn append_batch(&mut self, storage: &mut St, frames: &Vec<Frame>) -> (r: Result<
        (),
        JournalError,
    >)
        requires
            forall|i: int| 0 <= i < frames@.len() ==> (#[trigger] records(frames@)[i]).valid(),
        ensures
            final(storage).reliable() == old(storage).reliable(),
            final(self).dir() == old(self).dir(),
            final(self).fsync() == old(self).fsync(),
            final(self).segment_bytes() == old(self).segment_bytes(),
            r is Ok ==> follow(records(frames@), old(self).tip()) && final(self).tip() == old(
                self,
            ).tip() + frames@.len(),
            old(self).wf(old(storage).view()) ==> match r {
                Ok(_) => {
                    &&& final(self).wf(final(storage).view())
                    &&& held(final(storage).view(), old(self).dir()).frames == held(
                        old(storage).view(),
                        old(self).dir(),
                    ).frames + records(frames@)
                    &&& old(self).settled(old(storage).view()) ==> final(self).settled(
                        final(storage).view(),
                    )
                    &&& old(self).fsync() == FsyncPolicy::EveryFrame && frames@.len() > 0
                        ==> !final(self).pending()
                    &&& old(self).fsync() == FsyncPolicy::Micros(0) && frames@.len() > 0
                        ==> !final(self).pending()
                    &&& old(self).fsync() == FsyncPolicy::Never && frames@.len() > 0
                        ==> final(self).pending()
                    &&& frames@.len() == 0 && old(self).fsync() == FsyncPolicy::Never
                        ==> final(self).pending() == old(self).pending()
                },
                Err(e) => (e is Io && follow(records(frames@), old(self).tip()) && old(self).tip()
                    <= final(self).tip() <= old(self).tip() + frames@.len()) || (*final(self)
                    == *old(self) && final(storage).view() == old(storage).view() && (if follow(records(frames@), old(self).tip()) {
                    e is SeqExhausted && old(self).tip() + frames@.len() >= u64::MAX
                } else {
                    exists|i: int| out_of_order(records(frames@), old(self).tip(), i, e@)
                })),
            },
            old(self).wf(old(storage).view()) && old(storage).reliable() ==> (r is Ok <==> {
                let all = records(frames@);
                &&& follow(all, old(self).tip())
                &&& old(self).tip() + all.len() < u64::MAX
                &&& all.len() > 0 ==> old(self).accepts(old(storage).view(), all[0])
            }),
    {
        let ghost disk = storage.view();
        let ghost dir = self.config.dir@;
        let ghost all = records(frames@);
        let ghost tip = self.last_seq.0;
        let ghost kept = self.wf(disk);
        let n: usize = frames.len();
        if n > 0 && self.last_seq.0 == u64::MAX {
            return Err(JournalError::SeqExhausted);
        }
        let mut i: usize = 0;
        while i < n
            invariant
                i <= n == frames@.len(),
                all == records(frames@),
                tip == self.last_seq.0,
                n > 0 ==> tip + i < u64::MAX,
                *self == *old(self),
                storage.view() == old(storage).view(),
                storage.reliable() == old(storage).reliable(),
                forall|k: int| 0 <= k < i ==> (#[trigger] all[k]).seq == tip + 1 + k,
            decreases n - i,
        {
            let expected: u64 = self.last_seq.0 + i as u64 + 1;
            assert(all[i as int] == frames@[i as int]@);
            if frames[i].seq.0 != expected {
                assert(all[i as int].seq != tip + 1 + i);
                let e = JournalError::OutOfOrderAppend {
                    expected: SeqNo(expected),
                    found: frames[i].seq,
                };
                assert(out_of_order(all, tip, i as int, e@));
                return Err(e);
            }
            if expected == u64::MAX {
                if i + 1 < n {
                    assert(all[i + 1] == frames@[i + 1]@);
                    let e = JournalError::OutOfOrderAppend {
                        expected: SeqNo(expected),
                        found: frames[i + 1].seq,
                    };
                    assert(out_of_order(all, tip, i + 1, e@));
                    return Err(e);
                }
                return Err(JournalError::SeqExhausted);
            }
            i = i + 1;
        }
        let mut j: usize = 0;
        assert(all.take(0) =~= Seq::<Record>::empty());
        assert(held(disk, dir).frames + all.take(0) =~= held(disk, dir).frames);
        while j < n
            invariant
                j <= n == frames@.len(),
                all == records(frames@),
                all.len() == n,
                n > 0 ==> tip + n < u64::MAX,
                follow(all, tip),
                forall|k: int| 0 <= k < frames@.len() ==> (#[trigger] records(
                    frames@,
                )[k]).valid(),
                kept == old(self).wf(disk),
                kept ==> self.wf(storage.view()),
                j > 0 ==> self.pending(),
                j == 0 ==> self.pending() == old(self).pending(),
                self.tip() == tip + j,
                self.dir() == dir,
                old(self).dir() == dir,
                self.fsync() == old(self).fsync(),
                self.segment_bytes() == old(self).segment_bytes(),
                disk == old(storage).view(),
                storage.reliable() == old(storage).reliable(),
                kept && old(self).settled(disk) ==> self.settled(storage.view()),
                kept ==> held(storage.view(), dir).frames == held(disk, dir).frames + all.take(
                    j as int,
                ),
                kept && j > 0 ==> self.ready(storage.view()),
                kept && j > 0 ==> old(self).accepts(disk, all[0]),
                j == 0 ==> *self == *old(self) && storage.view() == disk,
            decreases n - j,
        {
            let ghost before = storage.view();
            assert(all[j as int] == frames@[j as int]@);
            assert(records(frames@)[j as int].valid());
            assert(all[j as int].seq == tip + 1 + j);
            proof {
                self.lemma_ready(before, before);
            }
            let done = self.write_frame(storage, &frames[j]);
            match done {
                Ok(()) => {},
                Err(e) => {
                    return Err(e);
                },
            }
            assert(all.take(j + 1) =~= all.take(j as int).push(all[j as int]));
            assert(held(disk, dir).frames + all.take(j + 1) =~= (held(disk, dir).frames + all.take(
                j as int,
            )).push(all[j as int]));
            j = j + 1;
        }
        assert(all.take(n as int) =~= all);
        let closed: bool = self.window_closed();
        self.sync_by_policy(storage, closed)
    }

    /// Ends the journal: what was appended since the last sync is forced to
    /// stable storage, so that a clean shutdown loses nothing.
    pub fn close(self, storage: &mut St) -> (r: Result<(), JournalError>)
        ensures
            self.wf(old(storage).view()) ==> {
                &&& well_kept(final(storage).view(), self.dir())
                &&& held(final(storage).view(), self.dir()) == held(
                    old(storage).view(),
                    self.dir(),
                )
                &&& r is Ok ==> final(storage).view() == flushed_end(
                    old(storage).view(),
                    self.dir(),
                    self.pending(),
                )
                &&& r is Ok && self.settled(old(storage).view()) ==> all_synced(
                    final(storage).view(),
                    self.dir(),
                )
                &&& old(storage).reliable() ==> r is Ok
            },
            r is Ok && !self.pending() ==> final(storage).view() == old(storage).view(),
            r matches Err(e) ==> e is Io && self.pending(),
            final(storage).reliable() == old(storage).reliable(),
    {
        let mut journal = self;
        let ghost before = storage.view();
        let r = journal.sync(storage);
        proof {
            if self.wf(before) {
                journal.lemma_wf(storage.view());
                if r is Ok && self.settled(before) {
                    journal.lemma_settled(storage.view());
                }
            }
        }
        r
    }

    /// Reseats the journal to resume appending at `next_seq`, dropping all
    /// segments below it. Used when recovery anchors on a snapshot whose seq
    /// is beyond the journal's surviving tail: the snapshot covers everything
    /// before `next_seq`.
    #[verifier::rlimit(60)]
    #[verifier::spinoff_prover]
    pub fn reseat_to(&mut self, storage: &mut St, next_seq: SeqNo) -> (r: Result<
        (),
        JournalError,
    >)
        requires
            next_seq.0 > old(self).tip(),
        ensures
            final(storage).reliable() == old(storage).reliable(),
            final(self).dir() == old(self).dir(),
            final(self).fsync() == old(self).fsync(),
            final(self).segment_bytes() == old(self).segment_bytes(),
            r is Ok ==> final(self).tip() == next_seq.0 - 1 && !final(self).pending(),
            r is Ok && old(self).wf(old(storage).view()) ==> {
                let path = crate::paths::numbered(
                    old(self).dir(),
                    next_seq.0,
                    crate::paths::seg_ext(),
                );
                let disk = old(storage).view();
                let now = final(storage).view();
                &&& !disk.has(path)
                &&& final(self).wf(now)
                &&& final(self).settled(now)
                &&& final(self).ready(now)
                &&& segments(now, old(self).dir()) == seq![path]
                &&& held(now, old(self).dir()).frames == Seq::<Record>::empty()
                &&& now.epoch == disk.epoch
                &&& forall|p: Seq<u8>| #[trigger]
                    disk.has(p) && !segments(disk, old(self).dir()).contains(p) ==> now.has(p)
                        && now.files[p].content() == disk.files[p].content()
                &&& forall|p: Seq<u8>| #[trigger]
                    disk.has(p) && !crate::paths::has_extension(p, crate::paths::seg_ext())
                        ==> now.files[p] == disk.files[p]
                &&& forall|p: Seq<u8>| #[trigger] now.has(p) ==> disk.has(p) || p == path
                &&& now == reseated(disk, old(self).dir(), old(self).pending(), next_seq.0)
            },
            old(self).wf(old(storage).view()) && old(storage).reliable() && r is Err ==> r->Err_0
                == JournalError::Io(IoError::AlreadyExists),
            old(self).wf(old(storage).view()) ==> (r matches Err(e) ==> e is Io),
            old(self).wf(old(storage).view()) && old(storage).reliable() ==> (r is Ok <==> !old(storage).view().has(
                crate::paths::numbered(old(self).dir(), next_seq.0, crate::paths::seg_ext()),
            )),
    {
        let ghost disk = storage.view();
        let ghost dir = self.config.dir@;
        let ghost ext = crate::paths::seg_ext();
        let ghost path = crate::paths::numbered(dir, next_seq.0, ext);
        let ghost kept = self.wf(disk);
        self.sync(storage)?;
        let ghost mid = storage.view();
        let ghost segs = segments(mid, dir);
        assert(mid.files.dom().contains(path) == disk.files.dom().contains(path));
        self.start_segment(storage, next_seq)?;
        let ghost more = storage.view();
        let ghost list = segments(more, dir);
        proof {
            assert(more.files.dom() =~= mid.files.dom().insert(path));
            if kept {
                lemma_recover_order(segs, mid.files, segs.len());
                crate::paths::lemma_numbered(dir, next_seq.0, ext);
                assert forall|i: int| 0 <= i < segs.len() implies crate::paths::sorts_before(
                    #[trigger] segs[i],
                    path,
                ) && (name_number(segs[i], dir) matches Some(n) && n <= next_seq.0) by {
                    assert(starts_by(mid.files[segs[i]].content(), held(mid, dir).next));
                    let first = crate::segment::read_header(mid.files[segs[i]].content())->Ok_0.0;
                    crate::paths::lemma_numbered(dir, first, ext);
                    assert(crate::listing::wanted(mid, dir, ext)(segs[i]));
                    assert(first != next_seq.0);
                    crate::paths::lemma_numbered_sorts(dir, first, next_seq.0, ext);
                }
                crate::listing::lemma_listing_push(mid, more, dir, ext, path);
                assert forall|k: int| 0 <= k < list.len() implies (name_number(
                    #[trigger] list[k],
                    dir,
                ) matches Some(n) && n <= (next_seq.0 - 1) as u64 + 1) by {
                    if k < segs.len() {
                        assert(list[k] == segs[k]);
                    }
                }
                lemma_all_below(list, dir, (next_seq.0 - 1) as u64, 0);
                assert(!some_name_is_no_number(list, dir));
            }
        }
        self.last_seq = SeqNo(next_seq.0 - 1);
        let r = self.remove_below(storage, SeqNo(next_seq.0 - 1));
        match r {
            Err(e) => Err(e),
            Ok(_) => {
                proof {
                    if kept {
                        let now = storage.view();
                        let n = segs.len();
                        lemma_segments_without_first(more, dir, n);
                        lemma_without_first(more, list, n);
                        assert(list.skip(n as int) =~= seq![path]);
                        assert(crate::listing::wanted(now, dir, ext)(segments(now, dir)[0]));
                        assert(now.has(path));
                        let header = crate::segment::segment_header(next_seq.0, self.epoch);
                        assert(header + Seq::<u8>::empty() =~= header);
                        crate::segment::law_header_roundtrip(next_seq.0, self.epoch, Seq::empty());
                        lemma_fresh_journal(now, dir, next_seq.0, self.epoch);
                        let gone = list.take(n as int);
                        assert forall|p: Seq<u8>| #[trigger]
                            disk.has(p) && !segments(disk, dir).contains(p) implies now.has(p)
                            && now.files[p].content() == disk.files[p].content() by {
                            assert(mid.files.dom().contains(p) == disk.files.dom().contains(p));
                            assert(mid.has(p));
                            assert(more.has(p));
                            if gone.contains(p) {
                                let i = choose|i: int| 0 <= i < gone.len() && gone[i] == p;
                                assert(segs[i] == p);
                            }
                            assert(now.has(p));
                        }
                        crate::paths::lemma_numbered(dir, next_seq.0, ext);
                        assert forall|p: Seq<u8>| #[trigger]
                            disk.has(p) && !crate::paths::has_extension(p, ext) implies now.files[p]
                            == disk.files[p] by {
                            assert(p != path);
                            if segments(disk, dir).contains(p) {
                                let i = choose|i: int|
                                    0 <= i < segments(disk, dir).len() && segments(disk, dir)[i] == p;
                                assert(segs[i] == p);
                                assert(crate::listing::wanted(mid, dir, ext)(segs[i]));
                            }
                            assert(now.has(p));
                        }
                        assert forall|p: Seq<u8>| #[trigger] now.has(p) implies disk.has(p) || p
                            == path by {
                            assert(more.has(p));
                            assert(mid.files.dom().contains(p) == disk.files.dom().contains(p));
                        }
                    }
                }
                Ok(())
            },
        }
    }

    /// How many segment files there are; none where they cannot be listed.
    pub fn segment_count(&self, storage: &St) -> (r: usize)
        ensures
            storage.reliable() ==> r == segments(storage.view(), self.dir()).len(),
    {
        let ext = seg_extension();
        match sorted_listing(storage, self.config.dir.as_slice(), ext.as_slice()) {
            Ok(l) => {
                assert(l@.map_values(|p: Vec<u8>| p@).len() == l@.len());
                l.len()
            },
            Err(_) => 0,
        }
    }
}

/// The segments are the same files with the same contents.
pub open spec fn same_segments(before: DiskModel, after: DiskModel, dir: Seq<u8>) -> bool {
    let ext = crate::paths::seg_ext();
    forall|p: Seq<u8>| #[trigger]
        crate::listing::wanted(after, dir, ext)(p) == crate::listing::wanted(before, dir, ext)(p)
            && (crate::listing::wanted(before, dir, ext)(p) ==> after.files[p] == before.files[p])
}

/// The same segments hold the same journal.
pub proof fn lemma_same_segments(before: DiskModel, after: DiskModel, dir: Seq<u8>)
    requires
        same_segments(before, after, dir),
        crate::paths::is_listing(
            segments(before, dir),
            crate::listing::wanted(before, dir, crate::paths::seg_ext()),
        ),
    ensures
        segments(after, dir) == segments(before, dir),
        crate::paths::is_listing(
            segments(after, dir),
            crate::listing::wanted(after, dir, crate::paths::seg_ext()),
        ),
        recover(after, dir) == recover(before, dir),
        names_right(after, dir) == names_right(before, dir),
        well_kept(after, dir) == well_kept(before, dir),
        sealed(after, dir) == sealed(before, dir),
        forall|i: int|
            0 <= i < segments(before, dir).len() ==> after.has(#[trigger] segments(before, dir)[i])
                && after.files[segments(before, dir)[i]] == before.files[segments(
                before,
                dir,
            )[i]],
{
    let ext = crate::paths::seg_ext();
    let segs = segments(before, dir);
    assert(crate::listing::wanted(before, dir, ext) =~= crate::listing::wanted(after, dir, ext));
    assert(segments(after, dir) == segs);
    assert forall|i: int| 0 <= i < segs.len() implies after.has(#[trigger] segs[i])
        && after.files[segs[i]] == before.files[segs[i]] by {
        assert(crate::listing::wanted(before, dir, ext)(segs[i]));
    }
    lemma_recover_frame(segs, before.files, after.files, segs.len());
    assert(names_right(after, dir) == names_right(before, dir)) by {
        if names_right(before, dir) {
            assert forall|i: int| 0 <= i < segments(after, dir).len() implies (
            crate::segment::read_header(
                after.files[#[trigger] segments(after, dir)[i]].content(),
            ) matches Ok((first, _)) ==> segments(after, dir)[i] == crate::paths::numbered(
                dir,
                first,
                ext,
            )) by {
                assert(segments(before, dir)[i] == segs[i]);
            }
        }
        if names_right(after, dir) {
            assert forall|i: int| 0 <= i < segments(before, dir).len() implies (
            crate::segment::read_header(
                before.files[#[trigger] segments(before, dir)[i]].content(),
            ) matches Ok((first, _)) ==> segments(before, dir)[i] == crate::paths::numbered(
                dir,
                first,
                ext,
            )) by {
                assert(segments(after, dir)[i] == segs[i]);
            }
        }
    }
    if segs.len() > 0 {
        assert(after.files[segs[segs.len() - 1]] == before.files[segs[segs.len() - 1]]);
    }
    assert(sealed(after, dir) == sealed(before, dir)) by {
        if sealed(before, dir) {
            assert forall|i: int| 0 <= i < segs.len() - 1 implies after.files[
                #[trigger] segments(after, dir)[i]
            ].unsynced.len() == 0 by {
                assert(segments(before, dir)[i] == segs[i]);
            }
        }
        if sealed(after, dir) {
            assert forall|i: int| 0 <= i < segs.len() - 1 implies before.files[
                #[trigger] segments(before, dir)[i]
            ].unsynced.len() == 0 by {
                assert(segments(after, dir)[i] == segs[i]);
            }
        }
    }
}

impl<St: Storage> Journal<St> {
    /// A writer stays where it is while other files come and go.
    pub proof fn lemma_other_files(&self, before: DiskModel, after: DiskModel)
        requires
            self.wf(before),
            after.epoch == before.epoch,
            same_segments(before, after, self.dir()),
        ensures
            self.wf(after),
            self.settled(before) ==> self.settled(after),
            segments(after, self.dir()) == segments(before, self.dir()),
            held(after, self.dir()) == held(before, self.dir()),
    {
        let dir = self.config.dir@;
        lemma_same_segments(before, after, dir);
        let segs = segments(before, dir);
        if segs.len() > 0 {
            assert(after.files[segs[segs.len() - 1]] == before.files[segs[segs.len() - 1]]);
        }
    }
}

/// A frame goes to a new segment exactly where there is none yet, or where the
/// last one holds a frame and would grow past its limit: no segment that holds
/// more than one frame is larger than that.
pub proof fn law_full_segment_is_left(disk: DiskModel, dir: Seq<u8>, segment_bytes: u64, len: nat)
    ensures
        ({
            let segs = segments(disk, dir);
            let size = disk.files[segs.last()].content().len();
            &&& segs.len() == 0 ==> rolls(disk, dir, segment_bytes, len)
            &&& segs.len() > 0 && size <= 28 ==> !rolls(disk, dir, segment_bytes, len)
            &&& segs.len() > 0 && size > 28 ==> (rolls(disk, dir, segment_bytes, len) <==> size
                + len > segment_bytes)
        }),
{
}

/// Syncing makes all of the last segment durable and changes neither what any
/// file holds nor any other file.
pub proof fn law_sync_changes_no_content(disk: DiskModel, dir: Seq<u8>, pending: bool, p: Seq<u8>)
    requires
        segments(disk, dir).len() > 0 ==> disk.has(segments(disk, dir).last()),
    ensures
        ({
            let after = flushed_end(disk, dir, pending);
            &&& after.has(p) <==> disk.has(p)
            &&& disk.has(p) ==> after.files[p].content() == disk.files[p].content()
            &&& pending && segments(disk, dir).len() > 0 ==> after.files[segments(
                disk,
                dir,
            ).last()].unsynced.len() == 0
            &&& segments(disk, dir).len() == 0 || p != segments(disk, dir).last() || !pending
                ==> after.files[p] == disk.files[p]
            &&& after.epoch == disk.epoch
        }),
{
    let segs = segments(disk, dir);
    if segs.len() > 0 {
        let was = disk.files[segs.last()];
        assert(was.flushed().content() =~= was.content());
    }
}

/// A frame that is filed stands behind the last segment, not yet durable, or opens
/// a new one that is named by its seq, behind a durable header with that seq and
/// the journal's epoch; the segment that is left is durable then. No other file
/// changes. Refused is only a frame behind which no seq is left, and one whose new
/// segment is there already.
pub proof fn law_frame_is_filed_at_the_end(
    disk: DiskModel,
    dir: Seq<u8>,
    pending: bool,
    segment_bytes: u64,
    f: Record,
    p: Seq<u8>,
)
    requires
        segments(disk, dir).len() > 0 ==> disk.has(segments(disk, dir).last()),
    ensures
        ({
            let last = segments(disk, dir).last();
            let path = crate::paths::numbered(dir, f.seq, crate::paths::seg_ext());
            let new = rolls(disk, dir, segment_bytes, f.wire().len());
            let header = crate::segment::segment_header(f.seq, held(disk, dir).epoch);
            match filing(disk, dir, pending, segment_bytes, f) {
                Ok(after) => {
                    &&& f.seq < u64::MAX
                    &&& !new ==> {
                        &&& after.files[last].synced == disk.files[last].synced
                        &&& after.files[last].content() == disk.files[last].content() + f.wire()
                        &&& p != last ==> after.has(p) == disk.has(p) && after.files[p]
                            == disk.files[p]
                    }
                    &&& new ==> {
                        &&& !disk.has(path)
                        &&& after.has(path)
                        &&& after.files[path].synced == header
                        &&& after.files[path].content() == header + f.wire()
                        &&& disk.has(p) ==> after.has(p) && after.files[p].content()
                            == disk.files[p].content()
                        &&& segments(disk, dir).len() > 0 && pending
                            ==> after.files[last].unsynced.len() == 0
                    }
                },
                Err(e) => if f.seq == u64::MAX {
                    e == JournalError::SeqExhausted
                } else {
                    new && disk.has(path) && e == JournalError::Io(IoError::AlreadyExists)
                },
            }
        }),
{
    let last = segments(disk, dir).last();
    law_sync_changes_no_content(disk, dir, pending, p);
    law_sync_changes_no_content(disk, dir, pending, last);
    if rolls(disk, dir, segment_bytes, f.wire().len()) {
        let header = crate::segment::segment_header(f.seq, held(disk, dir).epoch);
        assert(header + (Seq::<u8>::empty() + f.wire()) =~= header + f.wire());
    } else {
        let was = disk.files[last];
        assert(was.synced + (was.unsynced + f.wire()) =~= was.content() + f.wire());
    }
}

/// A torn end is cut off where the last good frame ends, and what is left is
/// durable; a journal without one is left alone, as is every other file.
pub proof fn law_torn_end_is_cut_off(disk: DiskModel, dir: Seq<u8>, found: Recovery, p: Seq<u8>)
    ensures
        ({
            let last = segments(disk, dir).last();
            let after = after_recovery(disk, dir, found);
            &&& found.torn is None ==> after == disk
            &&& found.torn matches Some(offset) ==> {
                &&& after.files[last].content() == disk.files[last].content().take(offset as int)
                &&& after.files[last].unsynced.len() == 0
                &&& p != last ==> after.has(p) == disk.has(p) && after.files[p] == disk.files[p]
            }
        }),
{
    if let Some(offset) = found.torn {
        let cut = disk.files[segments(disk, dir).last()].content().take(offset as int);
        assert(cut + Seq::<u8>::empty() =~= cut);
    }
}

/// The seq in front of the next one is the last one.
pub proof fn law_seq_before_is_the_last(next: u64)
    ensures
        next > 0 ==> seq_before(next) + 1 == next,
        seq_before(0) == 0,
{
}

/// A segment whose header goes on from what was read, and that holds frames
/// without a gap from there on, adds exactly those; the first segment decides
/// where the journal begins. What is no frame behind them is a torn end in the
/// last segment, and a fault at its offset in any other.
pub proof fn law_segment_adds_its_frames(
    so_far: Recovery,
    path: Seq<u8>,
    start: u64,
    epoch: u64,
    frames: Seq<Record>,
    junk: Seq<u8>,
    first: bool,
    last: bool,
)
    requires
        crate::segment::numbered_from(frames, start),
        first || start == so_far.next,
        junk.len() > 0 ==> crate::frame::read_record(junk) is Err,
    ensures
        ({
            let body = crate::segment::frames_wire(frames);
            let bytes = crate::segment::segment_header(start, epoch) + (body + junk);
            let r = add_segment(so_far, path, bytes, first, last);
            &&& junk.len() == 0 ==> r == Ok::<Recovery, JournalFault>(
                Recovery {
                    frames: so_far.frames + frames,
                    next: (start + frames.len()) as u64,
                    epoch,
                    torn: None,
                },
            )
            &&& junk.len() > 0 && last ==> r == Ok::<Recovery, JournalFault>(
                Recovery {
                    frames: so_far.frames + frames,
                    next: (start + frames.len()) as u64,
                    epoch,
                    torn: Some(28 + body.len()),
                },
            )
            &&& junk.len() > 0 && !last ==> (r matches Err(JournalFault::Corrupt {
                segment,
                offset,
                ..
            }) && segment == path && offset == (28 + body.len()) as u64)
        }),
{
    let body = crate::segment::frames_wire(frames);
    let header = crate::segment::segment_header(start, epoch);
    let bytes = header + (body + junk);
    crate::segment::law_header_roundtrip(start, epoch, body + junk);
    assert(bytes.skip(28) =~= body + junk);
    crate::segment::lemma_scan_frames(frames, start, junk);
    let tail = crate::segment::scan(junk, (start + frames.len()) as u64);
    assert(tail.frames =~= Seq::empty());
    assert(frames + tail.frames =~= frames);
}

/// A segment that does not go on from what was read is refused with both seqs,
/// and so is one with a frame out of place.
pub proof fn law_segment_out_of_place_is_refused(
    so_far: Recovery,
    path: Seq<u8>,
    start: u64,
    epoch: u64,
    frames: Seq<Record>,
    stray: Record,
    rest: Seq<u8>,
    last: bool,
)
    requires
        crate::segment::numbered_from(frames, start),
        stray.valid(),
        stray.seq != start + frames.len(),
    ensures
        ({
            let body = crate::segment::frames_wire(frames) + (stray.wire() + rest);
            let bytes = crate::segment::segment_header(start, epoch) + body;
            &&& start != so_far.next ==> add_segment(so_far, path, bytes, false, last) == Err::<
                Recovery,
                JournalFault,
            >(
                JournalFault::NonContiguousSeq {
                    segment: path,
                    expected: so_far.next,
                    found: start,
                },
            )
            &&& start == so_far.next ==> add_segment(so_far, path, bytes, false, last) == Err::<
                Recovery,
                JournalFault,
            >(
                JournalFault::NonContiguousSeq {
                    segment: path,
                    expected: (start + frames.len()) as u64,
                    found: stray.seq,
                },
            )
        }),
{
    let body = crate::segment::frames_wire(frames) + (stray.wire() + rest);
    let bytes = crate::segment::segment_header(start, epoch) + body;
    crate::segment::law_header_roundtrip(start, epoch, body);
    assert(bytes.skip(28) =~= body);
    crate::segment::lemma_scan_frames(frames, start, stray.wire() + rest);
    crate::segment::law_scan_stops_at_the_first_fault(
        stray,
        rest,
        (start + frames.len()) as u64,
        Seq::empty(),
    );
    let tail = crate::segment::scan(stray.wire() + rest, (start + frames.len()) as u64);
    assert(tail.frames =~= Seq::empty());
    assert(frames + tail.frames =~= frames);
}

/// Reading no segment gives an empty journal that begins at seq 1, and each
/// further segment is added to those in front of it, the last as the last.
pub proof fn law_segments_are_read_in_order(
    paths: Seq<Seq<u8>>,
    files: Map<Seq<u8>, FileModel>,
    k: nat,
)
    requires
        k < paths.len(),
    ensures
        recover_upto(paths, files, 0) == Ok::<Recovery, JournalFault>(
            Recovery { frames: Seq::empty(), next: 1, epoch: 0, torn: None },
        ),
        recover_upto(paths, files, k) matches Ok(so_far) ==> recover_upto(paths, files, k + 1)
            == add_segment(
            so_far,
            paths[k as int],
            files[paths[k as int]].content(),
            k == 0,
            k + 1 == paths.len(),
        ),
        recover_upto(paths, files, k) matches Err(e) ==> recover_upto(paths, files, k + 1) == Err::<
            Recovery,
            JournalFault,
        >(e),
{
}

/// A batch is refused at its first frame that does not follow: those in front of
/// it go on from the journal's end without a gap, and the fault tells which seq was
/// due there and which came.
pub proof fn law_gap_in_a_batch_is_named(
    frames: Seq<Record>,
    tip: u64,
    i: int,
    fault: JournalFault,
    j: int,
)
    requires
        out_of_order(frames, tip, i, fault),
        tip + 1 + i <= u64::MAX,
    ensures
        0 <= i < frames.len(),
        0 <= j < i ==> frames[j].seq == tip + 1 + j,
        fault matches JournalFault::OutOfOrderAppend { expected, found } && expected == tip + 1 + i
            && found == frames[i].seq && expected != found,
{
    if 0 <= j < i {
        assert(frames.take(i)[j] == frames[j]);
    }
}

} // verus!
