//! What power loss can do to a journal: recovery always succeeds, keeps every
//! durable frame, and never returns a frame that was not written.

use vstd::prelude::*;

use crate::frame::Record;
use crate::journal::{held, names_right, recover, recover_upto, sealed, segments, well_kept};
use crate::segment::{frames_wire, numbered_from, scan};
use crate::sim_storage::survives;
use crate::storage::{DiskModel, FileModel};

verus! {

/// `buf` is a prefix of `orig`, with one byte at `from` or behind it changed at most.
pub open spec fn damaged(orig: Seq<u8>, buf: Seq<u8>, from: int) -> bool {
    &&& buf.len() <= orig.len()
    &&& buf == orig.take(buf.len() as int) || exists|at: int, byte: u8|
        from <= at < buf.len() && 0 <= at && buf == #[trigger] orig.take(buf.len() as int).update(
            at,
            byte,
        )
}

/// Reading damaged frames yields a prefix of them, at least the ones that
/// lie in front of the damage, and ends without a gap.
pub proof fn lemma_scan_damaged(frames: Seq<Record>, first: u64, buf: Seq<u8>, from: int)
    requires
        numbered_from(frames, first),
        damaged(frames_wire(frames), buf, from),
        from <= buf.len(),
    ensures
        ({
            let s = scan(buf, first);
            &&& s.frames.len() <= frames.len()
            &&& s.frames == frames.take(s.frames.len() as int)
            &&& s.end is Clean || s.end is Bad
            &&& forall|k: int|
                0 <= k <= frames.len() && #[trigger] frames_wire(frames.take(k)).len() <= from
                    ==> k <= s.frames.len()
        }),
    decreases frames.len(),
{
    let s = scan(buf, first);
    let orig = frames_wire(frames);
    if frames.len() == 0 {
        assert(frames.take(0) =~= frames);
        assert(s.frames =~= frames.take(0));
    } else {
        let f = frames[0];
        let w = f.wire();
        let others = frames.skip(1);
        let tail = frames_wire(others);
        crate::frame::lemma_wire_len(f);
        assert(orig == w + tail);
        assert forall|k: int| 0 < k <= frames.len() implies #[trigger] frames_wire(
            frames.take(k),
        ).len() == w.len() + frames_wire(others.take(k - 1)).len() by {
            assert(frames.take(k).skip(1) =~= others.take(k - 1));
            assert(frames.take(k)[0] == f);
        }
        assert(frames.take(0) =~= Seq::<Record>::empty());
        let kept = orig.take(buf.len() as int);
        let clean = buf == kept;
        let (at, byte) = choose|at: int, byte: u8|
            from <= at < buf.len() && 0 <= at && buf == #[trigger] kept.update(at, byte);
        let harmless = clean || byte == kept[at];
        if harmless && !clean {
            assert(buf =~= kept);
        }
        if buf.len() == 0 {
            assert(s.frames =~= frames.take(0));
        } else if buf.len() < w.len() {
            assert(kept =~= w.take(buf.len() as int));
            if harmless {
                crate::frame::law_torn_frame_is_truncated(f, buf.len() as int);
            } else {
                crate::frame::law_torn_and_damaged_frame_is_refused(
                    f,
                    buf.len() as int,
                    at,
                    byte,
                );
            }
            assert(s.frames =~= frames.take(0));
        } else {
            let rest = buf.skip(w.len() as int);
            if !harmless && at < w.len() {
                assert(buf =~= w.update(at, byte) + rest);
                crate::frame::law_frame_corruption_is_detected(f, rest, at, byte);
                assert(s.frames =~= frames.take(0));
            } else {
                assert(buf =~= w + rest);
                crate::frame::law_frame_roundtrip(f, rest);
                let kept2 = tail.take(rest.len() as int);
                if harmless {
                    assert(rest =~= kept2);
                } else {
                    assert(rest =~= kept2.update(at - w.len(), byte));
                }
                let from2 = from - w.len();
                assert(damaged(tail, rest, from2));
                assert(numbered_from(others, (first + 1) as u64)) by {
                    assert forall|i: int| 0 <= i < others.len() implies (
                    #[trigger] others[i]).valid() && others[i].seq == first + 1 + i by {
                        assert(others[i] == frames[i + 1]);
                    }
                }
                lemma_scan_damaged(others, (first + 1) as u64, rest, from2);
                assert(s.frames =~= frames.take(s.frames.len() as int));
                assert forall|k: int|
                    0 <= k <= frames.len() && #[trigger] frames_wire(frames.take(k)).len()
                        <= from implies k <= s.frames.len() by {
                    if k > 0 {
                        assert(frames_wire(others.take(k - 1)).len() <= from2);
                    }
                }
            }
        }
    }
}

/// How many of the journal's frames are durable.
pub open spec fn durable_frames(disk: DiskModel, dir: Seq<u8>) -> nat {
    let segs = segments(disk, dir);
    if segs.len() == 0 {
        0
    } else {
        let sealed_part = recover_upto(segs, disk.files, (segs.len() - 1) as nat)->Ok_0;
        let last = disk.files[segs.last()];
        let start = crate::segment::read_header(last.content())->Ok_0.0;
        sealed_part.frames.len() + scan(last.synced.skip(28), start).frames.len()
    }
}

/// No more frames are durable than there are.
pub proof fn lemma_durable_bounded(disk: DiskModel, dir: Seq<u8>)
    requires
        well_kept(disk, dir),
        sealed(disk, dir),
    ensures
        durable_frames(disk, dir) <= held(disk, dir).frames.len(),
{
    let after = DiskModel {
        files: disk.files.map_values(
            |f: FileModel| FileModel { synced: f.content(), unsynced: Seq::empty() },
        ),
        epoch: disk.epoch,
    };
    assert(after.files.dom() =~= disk.files.dom());
    assert forall|p: Seq<u8>| #[trigger] disk.has(p) implies survives(
        disk.files[p],
        after.files[p],
        false,
    ) by {
        let f = disk.files[p];
        assert(f.content().take(f.content().len() as int) =~= f.content());
    }
    law_crash_keeps_a_durable_prefix(disk, after, dir, false);
}

/// Where nothing is unsynced, every frame is durable.
pub proof fn lemma_all_durable(disk: DiskModel, dir: Seq<u8>)
    requires
        well_kept(disk, dir),
        forall|i: int|
            0 <= i < segments(disk, dir).len() ==> disk.files[
                #[trigger] segments(disk, dir)[i]
            ].unsynced.len() == 0,
    ensures
        durable_frames(disk, dir) == held(disk, dir).frames.len(),
{
    let segs = segments(disk, dir);
    if segs.len() > 0 {
        let last = disk.files[segs[segs.len() - 1]];
        assert(last.content() =~= last.synced);
        crate::journal::lemma_recover_order(segs, disk.files, segs.len());
    }
}

/// Writing behind the last segment leaves durable what is durable.
pub proof fn lemma_durable_behind(before: DiskModel, after: DiskModel, dir: Seq<u8>)
    requires
        well_kept(before, dir),
        sealed(before, dir),
        segments(after, dir) == segments(before, dir),
        segments(before, dir).len() > 0,
        forall|i: int|
            0 <= i < segments(before, dir).len() - 1 ==> after.files[
                #[trigger] segments(before, dir)[i]
            ] == before.files[segments(before, dir)[i]],
        after.files[segments(before, dir).last()].synced == before.files[segments(
            before,
            dir,
        ).last()].synced,
    ensures
        durable_frames(after, dir) == durable_frames(before, dir),
{
    let segs = segments(before, dir);
    let k = (segs.len() - 1) as nat;
    let last = segs.last();
    crate::journal::lemma_recover_frame(segs, before.files, after.files, k);
    crate::segment::lemma_header_prefix(before.files[last].synced, before.files[last].unsynced);
    crate::segment::lemma_header_prefix(after.files[last].synced, after.files[last].unsynced);
}

/// A file none of which is unsynced comes through power loss as it was.
pub proof fn lemma_synced_file_survives(before: FileModel, after: FileModel, torn: bool)
    requires
        survives(before, after, torn),
        before.unsynced.len() == 0,
    ensures
        after.content() == before.content(),
{
    assert(before.content() =~= before.synced);
    assert(after.content() =~= after.synced);
    assert(before.content().take(after.synced.len() as int) =~= before.synced);
}

/// A segment with a durable header after power loss: the header is as it was,
/// and the frames are a prefix that holds the durable ones.
proof fn lemma_crashed_segment(
    was: FileModel,
    now: FileModel,
    torn: bool,
    start: u64,
    epoch: u64,
)
    requires
        survives(was, now, torn),
        was.synced.len() >= 28,
        crate::segment::read_header(was.content()) == Ok::<(u64, u64), Seq<char>>((start, epoch)),
        scan(was.content().skip(28), start).end is Clean,
    ensures
        crate::segment::read_header(now.content()) == Ok::<(u64, u64), Seq<char>>((start, epoch)),
        ({
            let all = scan(was.content().skip(28), start).frames;
            let s = scan(now.content().skip(28), start);
            &&& s.end is Clean || s.end is Bad
            &&& s.frames.len() <= all.len()
            &&& s.frames == all.take(s.frames.len() as int)
            &&& scan(was.synced.skip(28), start).frames.len() <= s.frames.len()
        }),
{
    let b = was.content();
    let a = now.content();
    assert(a =~= now.synced);
    let m = a.len() as int;
    let body = b.skip(28);
    let left = a.skip(28);
    let (at, byte) = choose|at: int, byte: u8|
        was.synced.len() <= at < now.synced.len() && now.synced == #[trigger] b.take(m).update(
            at,
            byte,
        );
    lemma_crashed_header(was, now, torn);
    crate::segment::lemma_scan(body, start);
    let frames = scan(body, start).frames;
    assert(body.take(body.len() as int) =~= body);
    let from = was.synced.len() - 28;
    assert(damaged(body, left, from)) by {
        if now.synced == b.take(m) {
            assert(left =~= body.take(m - 28));
        } else {
            assert(left =~= body.take(m - 28).update(at - 28, byte));
        }
    }
    lemma_scan_damaged(frames, start, left, from);
    let durable = was.synced.skip(28);
    assert(durable =~= body.take(from));
    lemma_scan_damaged(frames, start, durable, from);
    crate::segment::lemma_scan(durable, start);
    let kept = scan(durable, start);
    assert(frames_wire(frames.take(kept.frames.len() as int)).len() <= from);
}

/// Power loss, torn sectors or not, never costs the ability to recover:
/// the journal reads, its frames are a prefix of those that were appended,
/// and every durable frame is among them.
pub proof fn law_crash_keeps_a_durable_prefix(
    before: DiskModel,
    after: DiskModel,
    dir: Seq<u8>,
    torn: bool,
)
    requires
        well_kept(before, dir),
        sealed(before, dir),
        after.files.dom() == before.files.dom(),
        forall|p: Seq<u8>| #[trigger]
            before.has(p) ==> survives(before.files[p], after.files[p], torn),
    ensures
        crate::paths::is_listing(
            segments(after, dir),
            crate::listing::wanted(after, dir, crate::paths::seg_ext()),
        ),
        segments(after, dir) == segments(before, dir),
        names_right(after, dir),
        recover(after, dir) is Ok,
        ({
            let found = recover(after, dir)->Ok_0;
            let all = held(before, dir).frames;
            &&& found.frames.len() < found.next
            &&& found.epoch == held(before, dir).epoch
            &&& found.frames.len() <= all.len()
            &&& found.frames == all.take(found.frames.len() as int)
            &&& durable_frames(before, dir) <= found.frames.len()
            &&& found.next == held(before, dir).next - (all.len() - found.frames.len())
        }),
{
    let segs = segments(before, dir);
    let n = segs.len();
    let found0 = held(before, dir);
    crate::journal::lemma_recover_order(segs, before.files, n);
    lemma_crash_listing(before, after, dir, torn);
    if n == 0 {
        assert(recover(after, dir) == recover(before, dir));
        assert(found0.frames =~= found0.frames.take(0));
    } else {
        let k = (n - 1) as nat;
        let last = segs.last();
        let was = before.files[last];
        let now = after.files[last];
        assert(before.has(last));
        let so_far = recover_upto(segs, before.files, k)->Ok_0;
        assert(recover_upto(segs, after.files, k) == recover_upto(segs, before.files, k)) by {
            assert forall|i: int| 0 <= i < k implies before.files[#[trigger] segs[i]].content()
                == after.files[segs[i]].content() by {
                assert(before.has(segs[i]));
                lemma_synced_file_survives(before.files[segs[i]], after.files[segs[i]], torn);
            }
            crate::journal::lemma_recover_frame(segs, before.files, after.files, k);
        }
        let (start, epoch) = crate::segment::read_header(was.content())->Ok_0;
        assert(scan(was.content().skip(28), start).end is Clean);
        lemma_crashed_segment(was, now, torn, start, epoch);
        let all = scan(was.content().skip(28), start).frames;
        let s = scan(now.content().skip(28), start);
        crate::segment::lemma_scan(now.content().skip(28), start);
        crate::segment::lemma_scan(was.content().skip(28), start);
        assert(found0.frames == so_far.frames + all);
        assert(recover(after, dir) == crate::journal::add_segment(
            so_far,
            last,
            now.content(),
            n == 1,
            true,
        ));
        let found = recover(after, dir)->Ok_0;
        assert(found.frames == so_far.frames + s.frames);
        assert(found.frames =~= found0.frames.take(found.frames.len() as int));
    }
}

/// The segments and their names come through power loss.
proof fn lemma_crash_listing(before: DiskModel, after: DiskModel, dir: Seq<u8>, torn: bool)
    requires
        well_kept(before, dir),
        sealed(before, dir),
        after.files.dom() == before.files.dom(),
        forall|p: Seq<u8>| #[trigger]
            before.has(p) ==> survives(before.files[p], after.files[p], torn),
    ensures
        crate::paths::is_listing(
            segments(after, dir),
            crate::listing::wanted(after, dir, crate::paths::seg_ext()),
        ),
        segments(after, dir) == segments(before, dir),
        forall|i: int|
            0 <= i < segments(before, dir).len() ==> before.has(
                #[trigger] segments(before, dir)[i],
            ),
        names_right(after, dir),
{
    let ext = crate::paths::seg_ext();
    let segs = segments(before, dir);
    let n = segs.len();
    crate::listing::lemma_listing_of_same_paths(before, after, dir, ext);
    assert forall|p: Seq<u8>| after.has(p) == before.has(p) by {
        assert(after.files.dom().contains(p) == before.files.dom().contains(p));
    }
    assert(crate::listing::wanted(before, dir, ext) =~= crate::listing::wanted(after, dir, ext));
    assert forall|i: int| 0 <= i < n implies before.has(#[trigger] segs[i]) by {
        assert(crate::listing::wanted(before, dir, ext)(segs[i]));
    }
    crate::journal::lemma_recover_order(segs, before.files, n);
    assert forall|i: int| 0 <= i < n implies (crate::segment::read_header(
        after.files[#[trigger] segs[i]].content(),
    ) matches Ok((first, _)) ==> segs[i] == crate::paths::numbered(dir, first, ext)) by {
        assert(before.has(segs[i]));
        let was = before.files[segs[i]];
        let now = after.files[segs[i]];
        assert(crate::journal::starts_by(was.content(), held(before, dir).next));
        crate::segment::lemma_header_len(was.content());
        if was.unsynced.len() == 0 {
            lemma_synced_file_survives(was, now, torn);
        } else {
            lemma_crashed_header(was, now, torn);
        }
    }
}

proof fn lemma_crashed_header(was: FileModel, now: FileModel, torn: bool)
    requires
        survives(was, now, torn),
        was.synced.len() >= 28,
    ensures
        crate::segment::read_header(now.content()) == crate::segment::read_header(was.content()),
{
    let b = was.content();
    let a = now.content();
    assert(a =~= now.synced);
    let m = a.len() as int;
    let (at, byte) = choose|at: int, byte: u8|
        was.synced.len() <= at < now.synced.len() && now.synced == #[trigger] b.take(m).update(
            at,
            byte,
        );
    assert(a.take(28) =~= b.take(28));
    assert(a =~= a.take(28) + a.skip(28));
    assert(b =~= b.take(28) + b.skip(28));
    crate::segment::lemma_header_prefix(a.take(28), a.skip(28));
    crate::segment::lemma_header_prefix(b.take(28), b.skip(28));
}

/// Once everything is synced, power loss costs nothing.
pub proof fn law_synced_journal_survives_whole(
    before: DiskModel,
    after: DiskModel,
    dir: Seq<u8>,
    torn: bool,
)
    requires
        well_kept(before, dir),
        after.files.dom() == before.files.dom(),
        forall|p: Seq<u8>| #[trigger]
            before.has(p) ==> survives(before.files[p], after.files[p], torn),
        forall|i: int|
            0 <= i < segments(before, dir).len() ==> before.files[#[trigger] segments(
                before,
                dir,
            )[i]].unsynced.len() == 0,
    ensures
        well_kept(after, dir),
        held(after, dir) == held(before, dir),
{
    let ext = crate::paths::seg_ext();
    let segs = segments(before, dir);
    crate::listing::lemma_listing_of_same_paths(before, after, dir, ext);
    assert forall|p: Seq<u8>| after.has(p) == before.has(p) by {
        assert(after.files.dom().contains(p) == before.files.dom().contains(p));
    }
    assert(crate::listing::wanted(before, dir, ext) =~= crate::listing::wanted(after, dir, ext));
    assert forall|i: int| 0 <= i < segs.len() implies before.files[#[trigger] segs[i]].content()
        == after.files[segs[i]].content() by {
        assert(crate::listing::wanted(before, dir, ext)(segs[i]));
        assert(before.has(segs[i]));
        lemma_synced_file_survives(before.files[segs[i]], after.files[segs[i]], torn);
    }
    crate::journal::lemma_recover_frame(segs, before.files, after.files, segs.len());
    assert forall|i: int| 0 <= i < segments(after, dir).len() implies (
    crate::segment::read_header(
        after.files[#[trigger] segments(after, dir)[i]].content(),
    ) matches Ok((first, _)) ==> segments(after, dir)[i] == crate::paths::numbered(
        dir,
        first,
        ext,
    )) by {
        assert(segments(before, dir)[i] == segs[i]);
    }
}

/// Every frame of a journal whose segments are synced is durable.
pub proof fn law_synced_frames_are_durable(disk: DiskModel, dir: Seq<u8>)
    requires
        well_kept(disk, dir),
        forall|i: int|
            0 <= i < segments(disk, dir).len() ==> disk.files[
                #[trigger] segments(disk, dir)[i]
            ].unsynced.len() == 0,
    ensures
        durable_frames(disk, dir) == held(disk, dir).frames.len(),
{
    lemma_all_durable(disk, dir);
}

} // verus!
