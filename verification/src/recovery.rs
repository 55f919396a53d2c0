//! Recovery: which machine the journal and the snapshots in a directory
//! stand for, and why it is the machine that was running.

use vstd::prelude::*;

use crate::codec::CodecError;
use crate::durability::durable_frames;
use crate::frame::{FrameKind, Record};
use crate::journal::{held, names_right, recover, seq_before, sealed, segments, well_kept, Recovery};
use crate::machine::{feed, genesis_machine, restored_machine, Machine};
use crate::service::Service;
use crate::sim_storage::survives;
use crate::snapshot::{candidates, read_snapshot, snap_number, snapshot_files, usable,
    SnapshotModel};
use crate::storage::{DiskModel, FileModel};

verus! {

/// The machine at each seq of a history.
pub type Past = Map<u64, Machine>;

/// Each frame leads from the machine in front of it to the one behind it.
pub open spec fn chained<S: Service>(config: S::Config, past: Past, frames: Seq<Record>) -> bool {
    forall|i: int| 0 <= i < frames.len() ==> links::<S>(config, past, #[trigger] frames[i])
}

/// The frame leads from the machine in front of it to the one behind it.
pub open spec fn links<S: Service>(config: S::Config, past: Past, f: Record) -> bool {
    &&& f.seq >= 1
    &&& past.contains_key((f.seq - 1) as u64)
    &&& past.contains_key(f.seq)
    &&& feed::<S>(config, past[(f.seq - 1) as u64], f) is Ok
    &&& (feed::<S>(config, past[(f.seq - 1) as u64], f)->Ok_0).0 == past[f.seq]
}

/// A usable snapshot is named by its seq and restores to the machine there.
pub open spec fn anchors<S: Service>(
    config: S::Config,
    past: Past,
    dir: Seq<u8>,
    path: Seq<u8>,
    s: SnapshotModel,
) -> bool {
    &&& path == crate::paths::numbered(dir, s.seq, crate::paths::snap_ext())
    &&& past.contains_key(s.seq)
    &&& restored_machine::<S>(config, s.payload) == Some(past[s.seq])
}

/// Every usable snapshot in `dir` does so.
pub open spec fn anchored<S: Service>(
    config: S::Config,
    past: Past,
    disk: DiskModel,
    dir: Seq<u8>,
) -> bool {
    forall|p: Seq<u8>| #[trigger]
        is_snapshot(disk, dir, p) ==> (read_snapshot(disk.files[p].content()) matches Some(s)
            ==> anchors::<S>(config, past, dir, p, s))
}

/// `p` is a snapshot file in `dir`.
pub open spec fn is_snapshot(disk: DiskModel, dir: Seq<u8>, p: Seq<u8>) -> bool {
    &&& disk.has(p)
    &&& crate::paths::is_child(p, dir)
    &&& crate::paths::has_extension(p, crate::paths::snap_ext())
}

/// The first seq that the journal holds, or would hold next.
pub open spec fn first_seq(found: Recovery) -> int {
    found.next - found.frames.len()
}

/// `p` is a usable snapshot that a journal starting at `first` goes on from.
pub open spec fn covers(disk: DiskModel, dir: Seq<u8>, p: Seq<u8>, first: int) -> bool {
    &&& is_snapshot(disk, dir, p)
    &&& read_snapshot(disk.files[p].content()) is Some
    &&& read_snapshot(disk.files[p].content())->0.seq + 1 >= first
}

/// The journal and the snapshots in `dir` tell of the history `past`: frames
/// lead from machine to machine, snapshots hold machines of it, and a journal
/// that starts at the beginning starts from the genesis machine.
pub open spec fn tells<S: Service>(
    config: S::Config,
    past: Past,
    disk: DiskModel,
    dir: Seq<u8>,
) -> bool {
    &&& crate::paths::is_listing(
        segments(disk, dir),
        crate::listing::wanted(disk, dir, crate::paths::seg_ext()),
    )
    &&& names_right(disk, dir)
    &&& recover(disk, dir) is Ok
    &&& first_seq(recover(disk, dir)->Ok_0) >= 1
    &&& chained::<S>(config, past, (recover(disk, dir)->Ok_0).frames)
    &&& anchored::<S>(config, past, disk, dir)
    &&& first_seq(recover(disk, dir)->Ok_0) == 1 ==> past.contains_key(0) && past[0]
        == genesis_machine::<S>(config)
}

/// What the journal no longer holds is covered by a snapshot.
pub open spec fn covered(disk: DiskModel, dir: Seq<u8>) -> bool {
    first_seq(recover(disk, dir)->Ok_0) <= 1 || exists|p: Seq<u8>| #[trigger]
        covers(disk, dir, p, first_seq(recover(disk, dir)->Ok_0))
}

/// The snapshot files can be listed.
pub open spec fn snapshots_listed(disk: DiskModel, dir: Seq<u8>) -> bool {
    crate::paths::is_listing(
        snapshot_files(disk, dir),
        crate::listing::wanted(disk, dir, crate::paths::snap_ext()),
    )
}

/// The machine after those of `frames` that come after seq `from`.
pub open spec fn replay_after<S: Service>(
    config: S::Config,
    m: Machine,
    frames: Seq<Record>,
    from: u64,
) -> Result<Machine, (u64, CodecError)>
    decreases frames.len(),
{
    if frames.len() == 0 {
        Ok(m)
    } else {
        match replay_after::<S>(config, m, frames.drop_last(), from) {
            Err(e) => Err(e),
            Ok(before) => if frames.last().seq <= from {
                Ok(before)
            } else {
                match feed::<S>(config, before, frames.last()) {
                    Err(e) => Err((frames.last().seq, e)),
                    Ok((after, _)) => Ok(after),
                }
            },
        }
    }
}

/// How many of the frames after seq `from` are inputs.
pub open spec fn inputs_after(frames: Seq<Record>, from: u64) -> nat
    decreases frames.len(),
{
    if frames.len() == 0 {
        0
    } else {
        inputs_after(frames.drop_last(), from) + if frames.last().seq > from
            && frames.last().kind == FrameKind::Input {
            1nat
        } else {
            0nat
        }
    }
}

/// The first of the candidates from the `i`-th on that decodes and that a
/// journal starting at `first` goes on from, with the machine it restores to.
pub open spec fn pick<S: Service>(
    config: S::Config,
    all: Seq<SnapshotModel>,
    first: int,
    i: nat,
) -> Option<(u64, Machine)>
    decreases all.len() - i,
{
    if i >= all.len() {
        None
    } else if all[i as int].seq + 1 >= first && restored_machine::<S>(
        config,
        all[i as int].payload,
    ) is Some {
        Some((all[i as int].seq, restored_machine::<S>(config, all[i as int].payload)->0))
    } else {
        pick::<S>(config, all, first, i + 1)
    }
}

/// Up to where snapshots are looked at: the journal's last seq, or the
/// highest that a snapshot file is named for.
pub open spec fn ceiling(disk: DiskModel, dir: Seq<u8>) -> u64 {
    let last = seq_before((recover(disk, dir)->Ok_0).next);
    let high = crate::snapshot::highest(
        snapshot_files(disk, dir),
        dir,
        snapshot_files(disk, dir).len(),
    );
    if high > last {
        high
    } else {
        last
    }
}

/// The snapshot that recovery starts from.
pub open spec fn anchor<S: Service>(
    config: S::Config,
    disk: DiskModel,
    dir: Seq<u8>,
) -> Option<(u64, Machine)> {
    pick::<S>(
        config,
        candidates(disk, dir, ceiling(disk, dir)),
        first_seq(recover(disk, dir)->Ok_0),
        0,
    )
}

/// `from` is a usable snapshot that the journal goes on from, or nothing.
pub open spec fn may_start<S: Service>(
    config: S::Config,
    disk: DiskModel,
    dir: Seq<u8>,
    from: Option<(u64, Machine)>,
) -> bool {
    match from {
        None => first_seq(recover(disk, dir)->Ok_0) <= 1,
        Some((seq, m)) => {
            &&& seq + 1 >= first_seq(recover(disk, dir)->Ok_0)
            &&& exists|s: SnapshotModel| #[trigger]
                candidates(disk, dir, ceiling(disk, dir)).contains(s) && s.seq == seq
                    && restored_machine::<S>(config, s.payload) == Some(m)
        },
    }
}

pub open spec fn start_seq(from: Option<(u64, Machine)>) -> u64 {
    match from {
        None => 0,
        Some((seq, _)) => seq,
    }
}

pub open spec fn start_machine<S: Service>(
    config: S::Config,
    from: Option<(u64, Machine)>,
) -> Machine {
    match from {
        None => genesis_machine::<S>(config),
        Some((_, m)) => m,
    }
}

/// The seq that recovery reaches.
pub open spec fn reached(disk: DiskModel, dir: Seq<u8>, from: Option<(u64, Machine)>) -> u64 {
    let last = seq_before((recover(disk, dir)->Ok_0).next);
    if start_seq(from) > last {
        start_seq(from)
    } else {
        last
    }
}

/// The machine that recovery from `from` leads to.
pub open spec fn recovered_machine<S: Service>(
    config: S::Config,
    disk: DiskModel,
    dir: Seq<u8>,
    from: Option<(u64, Machine)>,
) -> Result<Machine, (u64, CodecError)> {
    replay_after::<S>(
        config,
        start_machine::<S>(config, from),
        (recover(disk, dir)->Ok_0).frames,
        start_seq(from),
    )
}

/// Replaying chained frames from a machine of the history follows the history.
pub proof fn lemma_replay_follows<S: Service>(
    config: S::Config,
    past: Past,
    frames: Seq<Record>,
    first: int,
    from: u64,
)
    requires
        chained::<S>(config, past, frames),
        forall|i: int| 0 <= i < frames.len() ==> (#[trigger] frames[i]).seq == first + i,
        from + 1 >= first,
        past.contains_key(from),
    ensures
        ({
            let end = first + frames.len() - 1;
            let tip = if end > from {
                end as u64
            } else {
                from
            };
            &&& past.contains_key(tip)
            &&& replay_after::<S>(config, past[from], frames, from) == Ok::<
                Machine,
                (u64, CodecError),
            >(past[tip])
        }),
    decreases frames.len(),
{
    if frames.len() > 0 {
        let front = frames.drop_last();
        let last = frames.last();
        assert(chained::<S>(config, past, front)) by {
            assert forall|i: int| 0 <= i < front.len() implies links::<S>(
                config,
                past,
                #[trigger] front[i],
            ) by {
                assert(front[i] == frames[i]);
            }
        }
        assert forall|i: int| 0 <= i < front.len() implies (#[trigger] front[i]).seq == first
            + i by {
            assert(front[i] == frames[i]);
        }
        lemma_replay_follows::<S>(config, past, front, first, from);
        assert(links::<S>(config, past, frames[frames.len() - 1]));
    }
}

/// Every usable snapshot is a candidate, and every candidate is one.
proof fn lemma_usable(
    paths: Seq<Seq<u8>>,
    files: Map<Seq<u8>, FileModel>,
    max: u64,
    k: nat,
    i: int,
    s: SnapshotModel,
)
    requires
        k <= paths.len(),
    ensures
        0 <= i < k && read_snapshot(files[paths[i]].content()) == Some(s) && s.seq <= max
            ==> usable(paths, files, max, k).contains(s),
        usable(paths, files, max, k).contains(s) ==> exists|j: int|
            0 <= j < k && read_snapshot(files[#[trigger] paths[j]].content()) == Some(s),
    decreases k,
{
    if k > 0 {
        let all = usable(paths, files, max, k);
        let rest = usable(paths, files, max, (k - 1) as nat);
        lemma_usable(paths, files, max, (k - 1) as nat, i, s);
        let here = read_snapshot(files[paths[k - 1]].content());
        let added = here is Some && here->0.seq <= max;
        if rest.contains(s) {
            let j = choose|j: int| 0 <= j < rest.len() && rest[j] == s;
            if added {
                assert(all[j + 1] == s);
            } else {
                assert(all[j] == s);
            }
        }
        if added {
            assert(all[0] == here->0);
        }
        if all.contains(s) {
            let j = choose|j: int| 0 <= j < all.len() && all[j] == s;
            if added && j == 0 {
                assert(read_snapshot(files[paths[k - 1]].content()) == Some(s));
            } else if added {
                assert(rest[j - 1] == s);
            } else {
                assert(rest[j] == s);
            }
        }
    }
}

proof fn lemma_highest(paths: Seq<Seq<u8>>, dir: Seq<u8>, k: nat, i: int)
    requires
        0 <= i < k <= paths.len(),
        snap_number(paths[i], dir) is Some,
    ensures
        snap_number(paths[i], dir)->0 <= crate::snapshot::highest(paths, dir, k),
    decreases k,
{
    if i < k - 1 {
        lemma_highest(paths, dir, (k - 1) as nat, i);
    }
}

proof fn lemma_pick_finds<S: Service>(
    config: S::Config,
    all: Seq<SnapshotModel>,
    first: int,
    i: nat,
    j: int,
)
    requires
        i <= j < all.len(),
        all[j].seq + 1 >= first,
        restored_machine::<S>(config, all[j].payload) is Some,
    ensures
        pick::<S>(config, all, first, i) is Some,
    decreases j - i,
{
    if i < j {
        lemma_pick_finds::<S>(config, all, first, i + 1, j);
    }
}

pub proof fn lemma_pick_sound<S: Service>(
    config: S::Config,
    all: Seq<SnapshotModel>,
    first: int,
    i: nat,
)
    ensures
        pick::<S>(config, all, first, i) matches Some((seq, m)) ==> seq + 1 >= first && exists|
            s: SnapshotModel,
        | #[trigger]
            all.contains(s) && s.seq == seq && restored_machine::<S>(config, s.payload) == Some(m),
    decreases all.len() - i,
{
    if i < all.len() {
        if all[i as int].seq + 1 >= first && restored_machine::<S>(
            config,
            all[i as int].payload,
        ) is Some {
            assert(all.contains(all[i as int]));
        } else {
            lemma_pick_sound::<S>(config, all, first, i + 1);
        }
    }
}

/// Every usable snapshot is a candidate.
proof fn lemma_all_are_candidates<S: Service>(
    config: S::Config,
    past: Past,
    disk: DiskModel,
    dir: Seq<u8>,
    p: Seq<u8>,
)
    requires
        tells::<S>(config, past, disk, dir),
        snapshots_listed(disk, dir),
        is_snapshot(disk, dir, p),
        read_snapshot(disk.files[p].content()) is Some,
    ensures
        candidates(disk, dir, ceiling(disk, dir)).contains(
            read_snapshot(disk.files[p].content())->0,
        ),
{
    let paths = snapshot_files(disk, dir);
    let s = read_snapshot(disk.files[p].content())->0;
    assert(crate::listing::wanted(disk, dir, crate::paths::snap_ext())(p));
    let i = choose|i: int| 0 <= i < paths.len() && paths[i] == p;
    assert(anchors::<S>(config, past, dir, paths[i], s));
    crate::paths::lemma_numbered(dir, s.seq, crate::paths::snap_ext());
    lemma_highest(paths, dir, paths.len(), i);
    lemma_usable(paths, disk.files, ceiling(disk, dir), paths.len(), i, s);
}

/// A directory that tells of a history and is covered can be recovered from.
pub proof fn lemma_anchor<S: Service>(
    config: S::Config,
    past: Past,
    disk: DiskModel,
    dir: Seq<u8>,
)
    requires
        tells::<S>(config, past, disk, dir),
        covered(disk, dir),
        snapshots_listed(disk, dir),
    ensures
        may_start::<S>(config, disk, dir, anchor::<S>(config, disk, dir)),
{
    let all = candidates(disk, dir, ceiling(disk, dir));
    let first = first_seq(recover(disk, dir)->Ok_0);
    lemma_pick_sound::<S>(config, all, first, 0);
    if anchor::<S>(config, disk, dir) is None && first > 1 {
        let p = choose|p: Seq<u8>| #[trigger] covers(disk, dir, p, first);
        let s = read_snapshot(disk.files[p].content())->0;
        assert(is_snapshot(disk, dir, p));
        assert(anchors::<S>(config, past, dir, p, s));
        lemma_all_are_candidates::<S>(config, past, disk, dir, p);
        let j = choose|j: int| 0 <= j < all.len() && all[j] == s;
        lemma_pick_finds::<S>(config, all, first, 0, j);
    }
}

/// Recovery gives back the machine that was running: whichever usable
/// snapshot it starts from, it ends at the history's machine for the seq that
/// it reaches.
pub proof fn law_recovery_rebuilds_the_machine<S: Service>(
    config: S::Config,
    past: Past,
    disk: DiskModel,
    dir: Seq<u8>,
    from: Option<(u64, Machine)>,
)
    requires
        tells::<S>(config, past, disk, dir),
        snapshots_listed(disk, dir),
        may_start::<S>(config, disk, dir, from),
    ensures
        past.contains_key(reached(disk, dir, from)),
        recovered_machine::<S>(config, disk, dir, from) == Ok::<Machine, (u64, CodecError)>(
            past[reached(disk, dir, from)],
        ),
        from matches Some((seq, m)) ==> past.contains_key(seq) && past[seq] == m,
{
    let found = recover(disk, dir)->Ok_0;
    let first = first_seq(found);
    let segs = segments(disk, dir);
    crate::journal::lemma_recover_order(segs, disk.files, segs.len());
    assert forall|i: int| 0 <= i < found.frames.len() implies (#[trigger] found.frames[i]).seq
        == first + i by {}
    match from {
        None => {
            lemma_replay_follows::<S>(config, past, found.frames, first, 0);
        },
        Some((seq, m)) => {
            let paths = snapshot_files(disk, dir);
            let all = candidates(disk, dir, ceiling(disk, dir));
            let s = choose|s: SnapshotModel| #[trigger]
                all.contains(s) && s.seq == seq && restored_machine::<S>(config, s.payload)
                    == Some(m);
            lemma_usable(paths, disk.files, ceiling(disk, dir), paths.len(), 0, s);
            let j = choose|j: int|
                0 <= j < paths.len() && read_snapshot(disk.files[#[trigger] paths[j]].content())
                    == Some(s);
            assert(crate::listing::wanted(disk, dir, crate::paths::snap_ext())(paths[j]));
            assert(is_snapshot(disk, dir, paths[j]));
            assert(anchors::<S>(config, past, dir, paths[j], s));
            lemma_replay_follows::<S>(config, past, found.frames, first, seq);
        },
    }
}

/// All snapshot files in `dir` are durable.
pub open spec fn snapshots_synced(disk: DiskModel, dir: Seq<u8>) -> bool {
    forall|p: Seq<u8>| #[trigger]
        is_snapshot(disk, dir, p) ==> disk.files[p].unsynced.len() == 0
}

/// Snapshots were lost or made unusable; nothing else has changed.
pub open spec fn snapshots_damaged(before: DiskModel, after: DiskModel, dir: Seq<u8>) -> bool {
    &&& forall|p: Seq<u8>|
        !is_snapshot(before, dir, p) ==> (#[trigger] after.has(p) <==> before.has(p)) && (
        before.has(p) ==> after.files[p] == before.files[p])
    &&& forall|p: Seq<u8>| #[trigger]
        is_snapshot(after, dir, p) ==> is_snapshot(before, dir, p) && (after.files[p]
            == before.files[p] || read_snapshot(after.files[p].content()) is None)
}

/// Damage to the snapshots leaves the journal, and what is left tells of the
/// same history.
pub proof fn lemma_damage_keeps_history<S: Service>(
    config: S::Config,
    past: Past,
    before: DiskModel,
    after: DiskModel,
    dir: Seq<u8>,
)
    requires
        tells::<S>(config, past, before, dir),
        snapshots_damaged(before, after, dir),
    ensures
        recover(after, dir) == recover(before, dir),
        tells::<S>(config, past, after, dir),
{
    let ext = crate::paths::seg_ext();
    assert forall|p: Seq<u8>|
        crate::paths::has_extension(p, ext) implies (#[trigger] after.has(p) == before.has(p)) && (
    before.has(p) ==> after.files[p] == before.files[p]) by {
        lemma_extensions_differ(p);
        assert(!is_snapshot(before, dir, p));
        assert(after.has(p) <==> before.has(p));
    }
    lemma_segments_untouched(before, after, dir);
    crate::journal::lemma_same_segments(before, after, dir);
    assert forall|p: Seq<u8>| #[trigger] is_snapshot(after, dir, p) implies (read_snapshot(
        after.files[p].content(),
    ) matches Some(t) ==> anchors::<S>(config, past, dir, p, t)) by {
        assert(is_snapshot(before, dir, p));
    }
}

/// Snapshots are an optimization: recovery leads to the same machine whichever
/// of them were lost or can no longer be read, as long as what is left covers
/// what the journal no longer holds and no snapshot reaches beyond the journal.
pub proof fn law_recovery_does_not_depend_on_snapshots<S: Service>(
    config: S::Config,
    past: Past,
    before: DiskModel,
    after: DiskModel,
    dir: Seq<u8>,
)
    requires
        tells::<S>(config, past, before, dir),
        covered(before, dir),
        covered(after, dir),
        snapshots_listed(before, dir),
        snapshots_listed(after, dir),
        snapshots_damaged(before, after, dir),
        start_seq(anchor::<S>(config, before, dir)) < (recover(before, dir)->Ok_0).next,
        start_seq(anchor::<S>(config, after, dir)) < (recover(before, dir)->Ok_0).next,
    ensures
        recover(after, dir) == recover(before, dir),
        recovered_machine::<S>(config, after, dir, anchor::<S>(config, after, dir))
            == recovered_machine::<S>(config, before, dir, anchor::<S>(config, before, dir)),
        recovered_machine::<S>(config, after, dir, anchor::<S>(config, after, dir)) == Ok::<
            Machine,
            (u64, CodecError),
        >(past[seq_before((recover(before, dir)->Ok_0).next)]),
{
    lemma_damage_keeps_history::<S>(config, past, before, after, dir);
    lemma_anchor::<S>(config, past, before, dir);
    lemma_anchor::<S>(config, past, after, dir);
    law_recovery_rebuilds_the_machine::<S>(
        config,
        past,
        before,
        dir,
        anchor::<S>(config, before, dir),
    );
    law_recovery_rebuilds_the_machine::<S>(
        config,
        past,
        after,
        dir,
        anchor::<S>(config, after, dir),
    );
}

/// Power loss leaves a directory that tells of the same history, only perhaps
/// of less of it: nothing durable is lost, and nothing that did not happen is
/// told.
pub proof fn law_crash_keeps_history<S: Service>(
    config: S::Config,
    past: Past,
    before: DiskModel,
    after: DiskModel,
    dir: Seq<u8>,
    torn: bool,
)
    requires
        tells::<S>(config, past, before, dir),
        covered(before, dir),
        well_kept(before, dir),
        sealed(before, dir),
        snapshots_synced(before, dir),
        after.files.dom() == before.files.dom(),
        forall|p: Seq<u8>| #[trigger]
            before.has(p) ==> survives(before.files[p], after.files[p], torn),
    ensures
        tells::<S>(config, past, after, dir),
        covered(after, dir),
        durable_frames(before, dir) <= (recover(after, dir)->Ok_0).frames.len(),
        (recover(after, dir)->Ok_0).frames == held(before, dir).frames.take(
            (recover(after, dir)->Ok_0).frames.len() as int,
        ),
{
    crate::durability::law_crash_keeps_a_durable_prefix(before, after, dir, torn);
    assert forall|p: Seq<u8>| after.has(p) == before.has(p) by {
        assert(after.files.dom().contains(p) == before.files.dom().contains(p));
    }
    assert forall|p: Seq<u8>| #[trigger] is_snapshot(after, dir, p) implies is_snapshot(
        before,
        dir,
        p,
    ) && after.files[p].content() == before.files[p].content() by {
        assert(before.has(p));
        assert(is_snapshot(before, dir, p));
        crate::durability::lemma_synced_file_survives(before.files[p], after.files[p], torn);
    }
    let found = recover(after, dir)->Ok_0;
    let was = held(before, dir);
    assert(chained::<S>(config, past, found.frames)) by {
        assert forall|i: int| 0 <= i < found.frames.len() implies links::<S>(
            config,
            past,
            #[trigger] found.frames[i],
        ) by {
            assert(found.frames[i] == was.frames[i]);
            assert(links::<S>(config, past, was.frames[i]));
        }
    }
    assert(first_seq(found) == first_seq(was));
    if first_seq(found) > 1 {
        let p = choose|p: Seq<u8>| #[trigger] covers(before, dir, p, first_seq(was));
        assert(after.has(p));
        assert(is_snapshot(after, dir, p));
        assert(covers(after, dir, p, first_seq(found)));
    }
}

/// No file is both a segment and a snapshot.
pub proof fn lemma_extensions_differ(p: Seq<u8>)
    ensures
        !(crate::paths::has_extension(p, crate::paths::seg_ext()) && crate::paths::has_extension(
            p,
            crate::paths::snap_ext(),
        )),
{
    if crate::paths::has_extension(p, crate::paths::seg_ext()) && crate::paths::has_extension(
        p,
        crate::paths::snap_ext(),
    ) {
        let n = p.len() as int;
        assert(p.skip(n - 3)[2] == p[n - 1]);
        assert(p.skip(n - 4)[3] == p[n - 1]);
    }
}

/// The snapshots are the same files with the same contents.
pub open spec fn same_snapshots(before: DiskModel, after: DiskModel, dir: Seq<u8>) -> bool {
    &&& forall|p: Seq<u8>| #[trigger]
        is_snapshot(after, dir, p) ==> is_snapshot(before, dir, p) && after.files[p].content()
            == before.files[p].content()
    &&& forall|p: Seq<u8>| #[trigger] is_snapshot(before, dir, p) ==> is_snapshot(after, dir, p)
}

/// A frame behind the journal takes the history one machine further.
pub proof fn lemma_frame_extends_history<S: Service>(
    config: S::Config,
    past: Past,
    before: DiskModel,
    after: DiskModel,
    dir: Seq<u8>,
    f: Record,
)
    requires
        tells::<S>(config, past, before, dir),
        well_kept(before, dir),
        well_kept(after, dir),
        held(after, dir).frames == held(before, dir).frames.push(f),
        held(after, dir).next == held(before, dir).next + 1,
        f.seq == held(before, dir).next,
        past.contains_key((f.seq - 1) as u64),
        feed::<S>(config, past[(f.seq - 1) as u64], f) is Ok,
        same_snapshots(before, after, dir),
        forall|p: Seq<u8>| #[trigger]
            is_snapshot(before, dir, p) ==> (read_snapshot(before.files[p].content()) matches Some(
                s,
            ) ==> s.seq < f.seq),
    ensures
        tells::<S>(
            config,
            past.insert(f.seq, (feed::<S>(config, past[(f.seq - 1) as u64], f)->Ok_0).0),
            after,
            dir,
        ),
        covered(before, dir) ==> covered(after, dir),
{
    let m = (feed::<S>(config, past[(f.seq - 1) as u64], f)->Ok_0).0;
    let now = past.insert(f.seq, m);
    let was = held(before, dir);
    let found = held(after, dir);
    let segs = segments(before, dir);
    crate::journal::lemma_recover_order(segs, before.files, segs.len());
    assert forall|i: int| 0 <= i < found.frames.len() implies links::<S>(
        config,
        now,
        #[trigger] found.frames[i],
    ) by {
        if i < was.frames.len() {
            assert(found.frames[i] == was.frames[i]);
            assert(links::<S>(config, past, was.frames[i]));
        }
    }
    assert forall|p: Seq<u8>| #[trigger] is_snapshot(after, dir, p) implies (read_snapshot(
        after.files[p].content(),
    ) matches Some(s) ==> anchors::<S>(config, now, dir, p, s)) by {
        assert(is_snapshot(before, dir, p));
    }
    assert(first_seq(found) == first_seq(was));
    if covered(before, dir) && first_seq(found) > 1 {
        let p = choose|p: Seq<u8>| #[trigger] covers(before, dir, p, first_seq(was));
        assert(is_snapshot(before, dir, p));
        assert(is_snapshot(after, dir, p));
        assert(covers(after, dir, p, first_seq(found)));
    }
}

/// Files that are no segments come and go without touching the journal.
pub proof fn lemma_segments_untouched(before: DiskModel, after: DiskModel, dir: Seq<u8>)
    requires
        forall|p: Seq<u8>|
            crate::paths::has_extension(p, crate::paths::seg_ext()) ==> (#[trigger] after.has(p)
                == before.has(p)) && (before.has(p) ==> after.files[p] == before.files[p]),
    ensures
        crate::journal::same_segments(before, after, dir),
{
    let ext = crate::paths::seg_ext();
    assert forall|p: Seq<u8>| #[trigger]
        crate::listing::wanted(after, dir, ext)(p) == crate::listing::wanted(before, dir, ext)(p)
            && (crate::listing::wanted(before, dir, ext)(p) ==> after.files[p]
            == before.files[p]) by {
        if crate::paths::has_extension(p, ext) {
            assert(after.has(p) == before.has(p));
        }
    }
}

/// A snapshot of a machine of the history joins what the directory tells.
pub proof fn lemma_snapshot_joins_history<S: Service>(
    config: S::Config,
    past: Past,
    before: DiskModel,
    dir: Seq<u8>,
    s: SnapshotModel,
)
    requires
        tells::<S>(config, past, before, dir),
        s.payload.len() <= u32::MAX,
        past.contains_key(s.seq),
        restored_machine::<S>(config, s.payload) == Some(past[s.seq]),
        !before.has(crate::paths::numbered(dir, s.seq, crate::paths::snap_ext())),
    ensures
        ({
            let path = crate::paths::numbered(dir, s.seq, crate::paths::snap_ext());
            let after = before.with(path, FileModel { synced: s.file(), unsynced: Seq::empty() });
            &&& tells::<S>(config, past, after, dir)
            &&& covered(before, dir) ==> covered(after, dir)
            &&& is_snapshot(after, dir, path)
            &&& read_snapshot(after.files[path].content()) == Some(s)
            &&& crate::journal::same_segments(before, after, dir)
            &&& forall|p: Seq<u8>| #[trigger]
                is_snapshot(after, dir, p) ==> p == path || (is_snapshot(before, dir, p)
                    && after.files[p] == before.files[p])
            &&& forall|p: Seq<u8>| #[trigger]
                is_snapshot(before, dir, p) ==> is_snapshot(after, dir, p) && after.files[p]
                    == before.files[p]
        }),
{
    let path = crate::paths::numbered(dir, s.seq, crate::paths::snap_ext());
    let after = before.with(path, FileModel { synced: s.file(), unsynced: Seq::empty() });
    crate::paths::lemma_numbered(dir, s.seq, crate::paths::snap_ext());
    crate::snapshot::law_snapshot_roundtrip(s);
    assert(after.files[path].content() =~= s.file());
    assert forall|p: Seq<u8>|
        crate::paths::has_extension(p, crate::paths::seg_ext()) implies #[trigger] after.has(p)
        == before.has(p) && after.files[p] == before.files[p] by {
        lemma_extensions_differ(p);
        assert(p != path);
    }
    lemma_segments_untouched(before, after, dir);
    crate::journal::lemma_same_segments(before, after, dir);
    assert forall|p: Seq<u8>| #[trigger] is_snapshot(after, dir, p) implies (read_snapshot(
        after.files[p].content(),
    ) matches Some(t) ==> anchors::<S>(config, past, dir, p, t)) by {
        if p != path {
            assert(is_snapshot(before, dir, p));
        }
    }
    if covered(before, dir) && first_seq(recover(before, dir)->Ok_0) > 1 {
        let first = first_seq(recover(before, dir)->Ok_0);
        let p = choose|p: Seq<u8>| #[trigger] covers(before, dir, p, first);
        assert(is_snapshot(before, dir, p));
        assert(covers(after, dir, p, first));
    }
}

/// Deleting snapshots leaves what the directory tells true.
pub proof fn lemma_fewer_snapshots<S: Service>(
    config: S::Config,
    past: Past,
    before: DiskModel,
    after: DiskModel,
    dir: Seq<u8>,
)
    requires
        tells::<S>(config, past, before, dir),
        forall|p: Seq<u8>| #[trigger]
            after.has(p) ==> before.has(p) && after.files[p] == before.files[p],
        forall|p: Seq<u8>|
            before.has(p) && !is_snapshot(before, dir, p) ==> #[trigger] after.has(p),
    ensures
        tells::<S>(config, past, after, dir),
        crate::journal::same_segments(before, after, dir),
        recover(after, dir) == recover(before, dir),
{
    let ext = crate::paths::seg_ext();
    assert forall|p: Seq<u8>| #[trigger]
        crate::listing::wanted(after, dir, ext)(p) == crate::listing::wanted(before, dir, ext)(p)
            && (crate::listing::wanted(before, dir, ext)(p) ==> after.files[p]
            == before.files[p]) by {
        lemma_extensions_differ(p);
        if crate::listing::wanted(before, dir, ext)(p) {
            assert(!is_snapshot(before, dir, p));
            assert(after.has(p));
        }
        if crate::listing::wanted(after, dir, ext)(p) {
            assert(after.has(p));
        }
    }
    crate::journal::lemma_same_segments(before, after, dir);
    assert forall|p: Seq<u8>| #[trigger] is_snapshot(after, dir, p) implies (read_snapshot(
        after.files[p].content(),
    ) matches Some(t) ==> anchors::<S>(config, past, dir, p, t)) by {
        assert(after.has(p));
        assert(is_snapshot(before, dir, p));
    }
}

/// Dropping the journal's first frames leaves what the directory tells true.
pub proof fn lemma_fewer_frames<S: Service>(
    config: S::Config,
    past: Past,
    before: DiskModel,
    after: DiskModel,
    dir: Seq<u8>,
    dropped: int,
)
    requires
        tells::<S>(config, past, before, dir),
        well_kept(before, dir),
        well_kept(after, dir),
        0 <= dropped <= held(before, dir).frames.len(),
        held(after, dir).frames == held(before, dir).frames.skip(dropped),
        held(after, dir).next == held(before, dir).next,
        same_snapshots(before, after, dir),
    ensures
        tells::<S>(config, past, after, dir),
        first_seq(held(after, dir)) == first_seq(held(before, dir)) + dropped,
{
    let was = held(before, dir);
    let found = held(after, dir);
    assert forall|i: int| 0 <= i < found.frames.len() implies links::<S>(
        config,
        past,
        #[trigger] found.frames[i],
    ) by {
        assert(found.frames[i] == was.frames[i + dropped]);
        assert(links::<S>(config, past, was.frames[i + dropped]));
    }
    assert forall|p: Seq<u8>| #[trigger] is_snapshot(after, dir, p) implies (read_snapshot(
        after.files[p].content(),
    ) matches Some(t) ==> anchors::<S>(config, past, dir, p, t)) by {
        assert(is_snapshot(before, dir, p));
    }
}

/// A directory with the same frames and snapshots tells of the same history.
pub proof fn lemma_same_history<S: Service>(
    config: S::Config,
    past: Past,
    before: DiskModel,
    after: DiskModel,
    dir: Seq<u8>,
)
    requires
        tells::<S>(config, past, before, dir),
        well_kept(after, dir),
        held(after, dir).frames == held(before, dir).frames,
        held(after, dir).next == held(before, dir).next,
        same_snapshots(before, after, dir),
    ensures
        tells::<S>(config, past, after, dir),
        covered(before, dir) ==> covered(after, dir),
{
    let was = held(before, dir);
    assert forall|p: Seq<u8>| #[trigger] is_snapshot(after, dir, p) implies (read_snapshot(
        after.files[p].content(),
    ) matches Some(t) ==> anchors::<S>(config, past, dir, p, t)) by {
        assert(is_snapshot(before, dir, p));
    }
    if covered(before, dir) && first_seq(was) > 1 {
        let p = choose|p: Seq<u8>| #[trigger] covers(before, dir, p, first_seq(was));
        assert(is_snapshot(before, dir, p));
        assert(is_snapshot(after, dir, p));
        assert(covers(after, dir, p, first_seq(held(after, dir))));
    }
}

/// A journal that starts afresh behind a snapshot goes on from it.
pub proof fn lemma_reseated_history<S: Service>(
    config: S::Config,
    past: Past,
    before: DiskModel,
    after: DiskModel,
    dir: Seq<u8>,
    p: Seq<u8>,
)
    requires
        tells::<S>(config, past, before, dir),
        well_kept(after, dir),
        held(after, dir).frames == Seq::<Record>::empty(),
        held(after, dir).next > 1,
        covers(after, dir, p, held(after, dir).next as int),
        same_snapshots(before, after, dir),
    ensures
        tells::<S>(config, past, after, dir),
        covered(after, dir),
{
    assert forall|p: Seq<u8>| #[trigger] is_snapshot(after, dir, p) implies (read_snapshot(
        after.files[p].content(),
    ) matches Some(t) ==> anchors::<S>(config, past, dir, p, t)) by {
        assert(is_snapshot(before, dir, p));
    }
}

/// The snapshot that recovery starts from is there under its name.
pub proof fn lemma_start_file<S: Service>(
    config: S::Config,
    past: Past,
    disk: DiskModel,
    dir: Seq<u8>,
    from: (u64, Machine),
)
    requires
        tells::<S>(config, past, disk, dir),
        snapshots_listed(disk, dir),
        may_start::<S>(config, disk, dir, Some(from)),
    ensures
        ({
            let p = crate::paths::numbered(dir, from.0, crate::paths::snap_ext());
            &&& is_snapshot(disk, dir, p)
            &&& read_snapshot(disk.files[p].content()) is Some
            &&& read_snapshot(disk.files[p].content())->0.seq == from.0
            &&& snap_number(p, dir) == Some(from.0)
        }),
{
    let (seq, m) = from;
    let paths = snapshot_files(disk, dir);
    let all = candidates(disk, dir, ceiling(disk, dir));
    let s = choose|s: SnapshotModel| #[trigger]
        all.contains(s) && s.seq == seq && restored_machine::<S>(config, s.payload) == Some(m);
    lemma_usable(paths, disk.files, ceiling(disk, dir), paths.len(), 0, s);
    let j = choose|j: int|
        0 <= j < paths.len() && read_snapshot(disk.files[#[trigger] paths[j]].content()) == Some(s);
    assert(crate::listing::wanted(disk, dir, crate::paths::snap_ext())(paths[j]));
    assert(is_snapshot(disk, dir, paths[j]));
    assert(anchors::<S>(config, past, dir, paths[j], s));
    crate::paths::lemma_numbered(dir, seq, crate::paths::snap_ext());
}

/// Recovery starts from the first of the candidates that decodes and that the
/// journal goes on from: every one in front of it is unusable, and where none is
/// usable it starts from none.
pub proof fn law_newest_usable_snapshot_is_picked<S: Service>(
    config: S::Config,
    all: Seq<SnapshotModel>,
    first: int,
    i: nat,
)
    requires
        i <= all.len(),
    ensures
        match pick::<S>(config, all, first, i) {
            Some((seq, m)) => exists|k: int|
                {
                    &&& i <= k < all.len()
                    &&& (#[trigger] all[k]).seq == seq
                    &&& seq + 1 >= first
                    &&& restored_machine::<S>(config, all[k].payload) == Some(m)
                    &&& forall|j: int|
                        i <= j < k ==> (#[trigger] all[j]).seq + 1 < first || restored_machine::<S>(
                            config,
                            all[j].payload,
                        ) is None
                },
            None => forall|j: int|
                i <= j < all.len() ==> (#[trigger] all[j]).seq + 1 < first || restored_machine::<S>(
                    config,
                    all[j].payload,
                ) is None,
        },
    decreases all.len() - i,
{
    if i < all.len() {
        let here = all[i as int];
        if here.seq + 1 >= first && restored_machine::<S>(config, here.payload) is Some {
            assert(all[i as int].seq == here.seq);
        } else {
            law_newest_usable_snapshot_is_picked::<S>(config, all, first, i + 1);
            if let Some((seq, m)) = pick::<S>(config, all, first, i + 1) {
                let k = choose|k: int|
                    {
                        &&& i + 1 <= k < all.len()
                        &&& (#[trigger] all[k]).seq == seq
                        &&& seq + 1 >= first
                        &&& restored_machine::<S>(config, all[k].payload) == Some(m)
                        &&& forall|j: int|
                            i + 1 <= j < k ==> (#[trigger] all[j]).seq + 1 < first
                                || restored_machine::<S>(config, all[j].payload) is None
                    };
                assert forall|j: int| i <= j < k implies (#[trigger] all[j]).seq + 1 < first
                    || restored_machine::<S>(config, all[j].payload) is None by {}
                assert(all[k].seq == seq);
            }
        }
    }
}

/// Replaying from a seq skips the frames up to it and feeds the others, in order;
/// the inputs among those are counted.
pub proof fn law_replay_skips_what_the_snapshot_holds<S: Service>(
    config: S::Config,
    m: Machine,
    frames: Seq<Record>,
    f: Record,
    from: u64,
)
    ensures
        replay_after::<S>(config, m, Seq::empty(), from) == Ok::<Machine, (u64, CodecError)>(m),
        f.seq <= from ==> replay_after::<S>(config, m, frames.push(f), from) == replay_after::<S>(
            config,
            m,
            frames,
            from,
        ),
        f.seq > from ==> (replay_after::<S>(config, m, frames, from) matches Ok(mid)
            ==> replay_after::<S>(config, m, frames.push(f), from) == (match feed::<S>(
            config,
            mid,
            f,
        ) {
            Ok((after, _)) => Ok::<Machine, (u64, CodecError)>(after),
            Err(e) => Err::<Machine, (u64, CodecError)>((f.seq, e)),
        })),
        replay_after::<S>(config, m, frames, from) matches Err(e) ==> replay_after::<S>(
            config,
            m,
            frames.push(f),
            from,
        ) == Err::<Machine, (u64, CodecError)>(e),
        inputs_after(Seq::empty(), from) == 0,
        inputs_after(frames.push(f), from) - inputs_after(frames, from) == if f.seq > from && f.kind
            == FrameKind::Input {
            1int
        } else {
            0int
        },
{
    assert(frames.push(f).drop_last() =~= frames);
}

/// Recovery reaches the end of the journal or the snapshot that it started from,
/// whichever lies farther, and looks at snapshots up to the farthest that there
/// is.
pub proof fn law_recovery_reaches_the_farther_end(
    disk: DiskModel,
    dir: Seq<u8>,
    from: Option<(u64, Machine)>,
)
    ensures
        ({
            let next = (recover(disk, dir)->Ok_0).next;
            let high = crate::snapshot::highest(
                snapshot_files(disk, dir),
                dir,
                snapshot_files(disk, dir).len(),
            );
            &&& next > 0 ==> reached(disk, dir, from) >= next - 1
            &&& from matches Some((seq, _)) ==> reached(disk, dir, from) >= seq
            &&& reached(disk, dir, from) + 1 == next || reached(disk, dir, from) == start_seq(from)
            &&& ceiling(disk, dir) >= high
            &&& next > 0 ==> ceiling(disk, dir) >= next - 1
            &&& from is None ==> start_seq(from) == 0
            &&& from matches Some((seq, _)) ==> start_seq(from) == seq
        }),
{
}

} // verus!
