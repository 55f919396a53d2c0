//! What holds of the frames that a node sequences, of the times on them, and of
//! what it keeps.

use vstd::prelude::*;

use crate::codec::Encode;
use crate::frame::{FrameKind, Record};
use crate::journal::{below_cutoff, filing, name_number, segments, well_kept, without_first};
use crate::machine::{feed, Machine};
use crate::quorum::{flattened, ripe, Held};
use crate::node::{
    advanced, fired, fits, sequenced, shelved_one, shelved_snapshot, snapshot_due, trimmed, Home,
    Node, NodeError, Progress, Rules, Shelf, TimeSource,
};
use crate::seq::SeqNo;
use crate::service::Service;
use crate::snapshot::{
    numbered_files, read_snapshot, snap_number, snapshot_files, surplus, SnapshotModel,
};
use crate::storage::{DiskModel, Storage};
use crate::timer::next_due;

verus! {

/// Sequenced time never runs backwards and never stays behind the clock.
pub proof fn law_time_never_runs_backwards<S: Service, T: TimeSource, St: Storage>(
    node: Node<S, T, St>,
    now: u64,
)
    ensures
        node.last_time() <= node.stamp(now),
        now <= node.stamp(now),
        node.stamp(now) == now || node.stamp(now) == node.last_time(),
{
}

/// A snapshot is due at every `n`-th seq and at none in between; where `n` is 0
/// or 1, at every seq; and never where none are asked for.
pub proof fn law_snapshots_are_due_regularly(n: u64, seq: u64, more: u64)
    ensures
        !snapshot_due(None, seq),
        snapshot_due(Some(n), 0),
        n <= 1 ==> snapshot_due(Some(n), seq),
        n >= 1 && snapshot_due(Some(n), seq) && seq + n <= u64::MAX ==> snapshot_due(
            Some(n),
            (seq + n) as u64,
        ),
        n >= 1 && snapshot_due(Some(n), seq) && 0 < more < n && seq + more <= u64::MAX
            ==> !snapshot_due(Some(n), (seq + more) as u64),
{
    let s = seq as int;
    let m = n as int;
    let d = more as int;
    if n >= 1 {
        assert(0int % m == 0) by (nonlinear_arith)
            requires
                m >= 1,
        ;
        if s % m == 0 {
            assert((s + m) % m == 0) by (nonlinear_arith)
                requires
                    m >= 1,
                    s % m == 0,
            ;
            if 0 < d < m {
                assert((s + d) % m == d) by (nonlinear_arith)
                    requires
                        m >= 1,
                        s % m == 0,
                        0 < d < m,
                ;
            }
        }
    }
}

/// The frame that is sequenced next has the next seq, the time and the stream
/// that it is sequenced under, and the kind and payload that were handed in. The
/// machine behind it is what the frame leads to, and its outputs are noted under
/// its seq. Where a snapshot is due, one mark with that seq follows, at the same
/// time, and changes nothing else.
pub proof fn law_frame_is_sequenced_next<S: Service>(
    rules: Rules<S::Config>,
    p: Progress,
    kind: FrameKind,
    payload: Seq<u8>,
    time: u64,
)
    requires
        p.seq + 2 <= u64::MAX,
    ensures
        ({
            let q = sequenced::<S>(rules, p, kind, payload, time);
            let f = q.frames[p.frames.len() as int];
            let mark = q.frames[p.frames.len() as int + 1];
            let due = snapshot_due(rules.every, (p.seq + 1) as u64);
            let led = feed::<S>(rules.config, p.machine, f)->Ok_0;
            &&& q.frames.len() == p.frames.len() + (if due {
                2int
            } else {
                1int
            })
            &&& q.seq - p.seq == q.frames.len() - p.frames.len()
            &&& q.frames.take(p.frames.len() as int) == p.frames
            &&& f.seq == p.seq + 1 && f.time == time && f.stream_id == rules.stream_id
            &&& f.kind == kind && f.payload == payload
            &&& due ==> mark.seq == p.seq + 2 && mark.time == time && mark.stream_id
                == rules.stream_id && mark.kind == FrameKind::SnapshotMark && mark.payload
                == SeqNo((p.seq + 1) as u64).bytes()
            &&& q.machine == led.0
            &&& q.outputs == if kind == FrameKind::Input || kind == FrameKind::TimerFired {
                p.outputs.push(((p.seq + 1) as u64, led.1))
            } else {
                p.outputs
            }
        }),
{
    let q = sequenced::<S>(rules, p, kind, payload, time);
    assert(q.frames.take(p.frames.len() as int) =~= p.frames);
}

/// Due timers are fired, each by a frame of its own at the time they are due by,
/// the earliest first, until none is due: nothing but timer frames and snapshot
/// marks is sequenced on the way, without a gap.
pub proof fn law_timers_fire_until_none_is_due<S: Service>(
    rules: Rules<S::Config>,
    p: Progress,
    time: u64,
)
    ensures
        ({
            let q = fired::<S>(rules, p, time);
            &&& next_due(q.machine.wheel, time) is None || q.seq >= u64::MAX - 2
            &&& p.seq <= q.seq
            &&& q.seq - p.seq == q.frames.len() - p.frames.len()
            &&& q.frames.take(p.frames.len() as int) == p.frames
            &&& forall|i: int|
                p.frames.len() <= i < q.frames.len() ==> {
                    &&& (#[trigger] q.frames[i]).seq == p.seq + 1 + i - p.frames.len()
                    &&& q.frames[i].time == time
                    &&& q.frames[i].stream_id == rules.stream_id
                    &&& q.frames[i].kind == FrameKind::TimerFired || q.frames[i].kind
                        == FrameKind::SnapshotMark
                }
            &&& next_due(p.machine.wheel, time) matches Some(id) ==> (p.seq < u64::MAX - 2 ==> {
                &&& q.frames.len() > p.frames.len()
                &&& q.frames[p.frames.len() as int].kind == FrameKind::TimerFired
                &&& q.frames[p.frames.len() as int].payload == id.bytes()
            })
            &&& next_due(p.machine.wheel, time) is None ==> q == p
            &&& p.outputs.len() <= q.outputs.len()
            &&& q.outputs.take(p.outputs.len() as int) == p.outputs
        }),
    decreases u64::MAX - p.seq,
{
    if let Some(id) = next_due(p.machine.wheel, time) {
        if p.seq < u64::MAX - 2 {
            let kind = FrameKind::TimerFired;
            let mid = sequenced::<S>(rules, p, kind, id.bytes(), time);
            let q = fired::<S>(rules, mid, time);
            law_frame_is_sequenced_next::<S>(rules, p, kind, id.bytes(), time);
            law_timers_fire_until_none_is_due::<S>(rules, mid, time);
            assert(q.frames.take(p.frames.len() as int) =~= p.frames) by {
                assert forall|i: int| 0 <= i < p.frames.len() implies q.frames[i]
                    == p.frames[i] by {
                    assert(q.frames.take(mid.frames.len() as int)[i] == mid.frames[i]);
                    assert(mid.frames.take(p.frames.len() as int)[i] == p.frames[i]);
                }
            }
            assert forall|i: int| p.frames.len() <= i < q.frames.len() implies {
                &&& (#[trigger] q.frames[i]).seq == p.seq + 1 + i - p.frames.len()
                &&& q.frames[i].time == time
                &&& q.frames[i].stream_id == rules.stream_id
                &&& q.frames[i].kind == FrameKind::TimerFired || q.frames[i].kind
                    == FrameKind::SnapshotMark
            } by {
                if i < mid.frames.len() {
                    assert(q.frames.take(mid.frames.len() as int)[i] == mid.frames[i]);
                }
            }
            assert(q.frames.take(mid.frames.len() as int)[p.frames.len() as int]
                == mid.frames[p.frames.len() as int]);
            assert(q.outputs.take(p.outputs.len() as int) =~= p.outputs) by {
                assert forall|i: int| 0 <= i < p.outputs.len() implies q.outputs[i]
                    == p.outputs[i] by {
                    assert(q.outputs.take(mid.outputs.len() as int)[i] == mid.outputs[i]);
                }
            }
        } else {
            assert(p.frames.take(p.frames.len() as int) =~= p.frames);
            assert(p.outputs.take(p.outputs.len() as int) =~= p.outputs);
        }
    } else {
        assert(p.frames.take(p.frames.len() as int) =~= p.frames);
        assert(p.outputs.take(p.outputs.len() as int) =~= p.outputs);
    }
}

/// The snapshot at a seq is a file of its own that is named by the seq, durable,
/// and reads back as the machine's bytes at that seq; no other file is touched.
/// A file that is there is never written over.
pub proof fn law_snapshot_is_filed_under_its_seq(
    home: Home,
    shelf: Shelf,
    seq: u64,
    m: Machine,
    other: Seq<u8>,
)
    ensures
        ({
            let path = crate::paths::numbered(home.dir, seq, crate::paths::snap_ext());
            let bytes = crate::machine::machine_bytes(m);
            let made = shelved_snapshot(home, shelf, seq, m);
            &&& made is Ok <==> !shelf.disk.has(path) && fits(m)
            &&& made matches Ok(after) ==> {
                &&& after.disk.has(path)
                &&& after.disk.files[path].unsynced.len() == 0
                &&& read_snapshot(after.disk.files[path].content()) == Some(
                    SnapshotModel { seq, epoch: 0, payload: bytes },
                )
                &&& other != path ==> after.disk.has(other) == shelf.disk.has(other)
                    && after.disk.files[other] == shelf.disk.files[other]
                &&& after.pending == shelf.pending
            }
        }),
{
    let s = crate::node::machine_snapshot(seq, m);
    if fits(m) {
        crate::snapshot::law_snapshot_roundtrip(s);
        assert(s.file() + Seq::<u8>::empty() =~= s.file());
    }
}

/// Of the snapshots the newest stay, as many as are to be retained, and the older
/// ones go. Of the journal every segment goes that lies wholly in front of the
/// oldest snapshot that stays, and no other: all frames from that snapshot's seq
/// on stay. No other file is touched.
pub proof fn law_trimming_keeps_the_newest(home: Home, disk: DiskModel, i: int, p: Seq<u8>)
    requires
        crate::recovery::snapshots_listed(disk, home.dir),
        well_kept(disk, home.dir),
    ensures
        ({
            let ours = numbered_files(snapshot_files(disk, home.dir), home.dir);
            let segs = segments(disk, home.dir);
            let after = trimmed(home, disk);
            let first: int = if ours.len() > home.retains {
                ours.len() - home.retains
            } else {
                0
            };
            &&& 0 <= i < ours.len() ==> (after.has(ours[i]) <==> ours.len() - i <= home.retains)
            &&& 0 <= i < segs.len() - 1 ==> (after.has(segs[i]) <==> home.retains == 0
                || ours.len() == 0 || (name_number(segs[i + 1], home.dir)->0 > snap_number(
                ours[first],
                home.dir,
            )->0 && name_number(segs[i + 1], home.dir)->0 > 1))
            &&& segs.len() > 0 ==> after.has(segs.last())
            &&& after.has(p) ==> disk.has(p) && after.files[p] == disk.files[p]
            &&& disk.has(p) && !crate::paths::has_extension(p, crate::paths::snap_ext())
                && !crate::paths::has_extension(p, crate::paths::seg_ext()) ==> after.has(p)
        }),
{
    let dir = home.dir;
    let files = snapshot_files(disk, dir);
    let ours = numbered_files(files, dir);
    let segs = segments(disk, dir);
    let cut = surplus(ours.len(), home.retains);
    let fewer = without_first(disk, ours, cut);
    crate::node::lemma_pruned(disk, fewer, dir, home.retains);
    crate::journal::lemma_same_segments(disk, fewer, dir);
    crate::journal::lemma_without_first(disk, ours, cut);
    crate::node::lemma_filter_ordered(files, dir);
    let pred = |q: Seq<u8>| snap_number(q, dir) is Some;
    assert forall|k: int| 0 <= k < ours.len() implies crate::recovery::is_snapshot(
        disk,
        dir,
        #[trigger] ours[k],
    ) by {
        assert(ours.contains(ours[k]));
        files.lemma_filter_contains_rev(pred, ours[k]);
        let j = choose|j: int| 0 <= j < files.len() && files[j] == ours[k];
        assert(crate::listing::wanted(disk, dir, crate::paths::snap_ext())(files[j]));
    }
    assert forall|k: int| 0 <= k < ours.len() implies (fewer.has(#[trigger] ours[k]) <==> cut
        <= k) by {
        if k < cut {
            assert(ours.take(cut as int)[k] == ours[k]);
        } else if ours.take(cut as int).contains(ours[k]) {
            let j = choose|j: int|
                0 <= j < ours.take(cut as int).len() && ours.take(cut as int)[j] == ours[k];
            assert(crate::paths::sorts_before(ours[j], ours[k]));
            crate::paths::lemma_sorts_irreflexive(ours[k]);
        }
        assert(disk.has(ours[k]));
    }
    let wanted = crate::listing::wanted(disk, dir, crate::paths::seg_ext());
    assert forall|k: int| 0 <= k < segs.len() implies fewer.has(#[trigger] segs[k])
        && crate::paths::has_extension(segs[k], crate::paths::seg_ext()) by {
        assert(wanted(segs[k]));
        assert(crate::listing::wanted(fewer, dir, crate::paths::seg_ext())(segs[k]));
    }
    if cut < ours.len() {
        let oldest = snap_number(ours[cut as int], dir)->0;
        let cutoff = (if oldest > 0 {
            oldest - 1
        } else {
            0
        }) as u64;
        let gone = below_cutoff(segs, dir, cutoff, 0);
        let after = without_first(fewer, segs, gone);
        crate::journal::law_compaction_is_thorough(fewer, dir, cutoff);
        if segs.len() == 0 {
            assert(gone == 0);
        }
        crate::journal::lemma_without_first(fewer, segs, gone);
        assert forall|k: int| 0 <= k < segs.len() implies (after.has(#[trigger] segs[k]) <==> gone
            <= k) by {
            if k < gone {
                assert(segs.take(gone as int)[k] == segs[k]);
            } else if segs.take(gone as int).contains(segs[k]) {
                let j = choose|j: int|
                    0 <= j < segs.take(gone as int).len() && segs.take(gone as int)[j] == segs[k];
                assert(crate::paths::sorts_before(segs[j], segs[k]));
                crate::paths::lemma_sorts_irreflexive(segs[k]);
            }
        }
        assert forall|q: Seq<u8>|
            !crate::paths::has_extension(q, crate::paths::seg_ext()) implies #[trigger] after.has(q)
            == fewer.has(q) by {
            if segs.take(gone as int).contains(q) {
                let j = choose|j: int|
                    0 <= j < segs.take(gone as int).len() && segs.take(gone as int)[j] == q;
                assert(segs[j] == q);
            }
        }
        if 0 <= i < ours.len() {
            crate::recovery::lemma_extensions_differ(ours[i]);
            assert(crate::recovery::is_snapshot(disk, dir, ours[i]));
        }
    } else if 0 <= i < ours.len() {
        assert(fewer.has(ours[i]) <==> cut <= i);
    }
}

/// What is handed to a node goes to every subscriber as its next frame, under the
/// next seq and the node's time, as the kind and payload that were handed in;
/// whatever the node sequences behind it follows without a gap. The machine is
/// what the frame, and the timers that it makes fire, lead to.
pub proof fn law_what_is_handed_in_is_sequenced<S: Service, T: TimeSource, St: Storage>(
    before: Node<S, T, St>,
    after: Node<S, T, St>,
    kind: FrameKind,
    payload: Seq<u8>,
    time: u64,
    i: int,
)
    requires
        before.tip() + 2 <= u64::MAX,
        after.moved(
            &before,
            advanced::<S>(before.rules(), before.progress(), kind, payload, time),
            time,
        ),
    ensures
        before.tip() < after.tip(),
        after.last_time() == time,
        next_due(after.machine().wheel, time) is None || after.tip() >= u64::MAX - 2,
        after.waiting().len() == before.waiting().len(),
        0 <= i < before.waiting().len() ==> {
            let had = before.waiting()[i];
            let has = after.waiting()[i];
            let f = has[had.len() as int];
            &&& has.len() == had.len() + (after.tip() - before.tip())
            &&& has.take(had.len() as int) == had
            &&& f.seq == before.tip() + 1
            &&& f.kind == kind
            &&& f.payload == payload
            &&& f.time == time
            &&& f.stream_id == before.rules().stream_id
        },
{
    let start = before.progress();
    let p = advanced::<S>(before.rules(), start, kind, payload, time);
    let q = sequenced::<S>(before.rules(), start, kind, payload, time);
    law_frame_is_sequenced_next::<S>(before.rules(), start, kind, payload, time);
    law_timers_fire_until_none_is_due::<S>(before.rules(), q, time);
    assert(p.frames.take(q.frames.len() as int)[0] == q.frames[0]);
    if 0 <= i < before.waiting().len() {
        crate::bus::law_every_subscriber_gets_every_frame(before.waiting(), p.frames, p.frames[0], i);
        let had = before.waiting()[i];
        let has = after.waiting()[i];
        assert(has.skip(had.len() as int)[0] == p.frames[0]);
        assert(has.len() == had.len() + p.frames.len());
    }
}

/// An input that is submitted is sequenced at a time that is neither before the
/// node's nor before the clock's. Without a quorum its outputs come back at once,
/// in front of those of the timers that it makes fire; with one, what comes back
/// is what a majority holds, and nothing that waits is lost.
pub proof fn law_submission_is_answered<S: Service, T: TimeSource, St: Storage>(
    before: Node<S, T, St>,
    after: Node<S, T, St>,
    payload: Seq<u8>,
    out: Seq<Seq<u8>>,
    now: u64,
)
    requires
        before.wf(),
        before.tip() + 2 <= u64::MAX,
        after.submitted(&before, payload, Some(out), now),
    ensures
        before.tip() < after.tip(),
        before.last_time() <= after.last_time(),
        now <= after.last_time(),
        before.quorum() is None ==> ({
            let f = Record {
                seq: (before.tip() + 1) as u64,
                time: after.last_time(),
                stream_id: before.rules().stream_id,
                kind: FrameKind::Input,
                payload,
            };
            let own = (feed::<S>(before.rules().config, before.machine(), f)->Ok_0).1;
            own.len() <= out.len() && out.take(own.len() as int) == own
        }),
        before.quorum() matches Some(q) ==> {
            &&& after.quorum() is Some
            &&& exists|freed: Held| #[trigger]
                flattened(freed) == out && (freed + after.quorum()->0.pending).take(
                    q.pending.len() as int,
                ) == q.pending
        },
{
    let time = before.stamp(now);
    let start = before.progress();
    let p = advanced::<S>(before.rules(), start, FrameKind::Input, payload, time);
    let q = sequenced::<S>(before.rules(), start, FrameKind::Input, payload, time);
    law_time_never_runs_backwards(before, now);
    law_what_is_handed_in_is_sequenced(before, after, FrameKind::Input, payload, time, 0);
    law_frame_is_sequenced_next::<S>(before.rules(), start, FrameKind::Input, payload, time);
    law_timers_fire_until_none_is_due::<S>(before.rules(), q, time);
    match before.quorum() {
        None => {
            let f = q.frames[0];
            let own = (feed::<S>(before.rules().config, before.machine(), f)->Ok_0).1;
            let rest = p.outputs.skip(1);
            assert(q.outputs =~= seq![(f.seq, own)]);
            assert(p.outputs.take(1)[0] == q.outputs[0]);
            assert(p.outputs =~= seq![(f.seq, own)] + rest);
            crate::quorum::law_outputs_come_out_in_order(seq![(f.seq, own)], rest, (f.seq, own));
            assert(out.take(own.len() as int) =~= own);
        },
        Some(held) => {
            let all = held.acked(held.id, p.seq).holding(p.outputs);
            let w = choose|w: u64| #[trigger]
                all.commits(w) && out == flattened(all.pending.take(ripe(all.pending, w) as int))
                    && after.quorum() == Some(all.released(ripe(all.pending, w)));
            let k = ripe(all.pending, w) as int;
            let freed = all.pending.take(k);
            crate::quorum::law_committed_entries_are_released(all, w, 0);
            assert(freed + after.quorum()->0.pending =~= all.pending);
            assert(all.pending.take(held.pending.len() as int) =~= held.pending);
            assert(flattened(freed) == out);
        },
    }
}

/// An acknowledgement frees the held entries in front that are committed by then,
/// and only those: what is freed and what goes on waiting is what waited, in
/// order. Without a quorum nothing waits and nothing is freed.
pub proof fn law_acknowledgement_frees_what_is_committed<S: Service, T: TimeSource, St: Storage>(
    before: Node<S, T, St>,
    after: Node<S, T, St>,
    replica: u32,
    seq: u64,
    freed: Held,
)
    requires
        after.heard(&before, replica, seq, freed),
    ensures
        before.quorum() is None ==> freed.len() == 0 && after.quorum() is None,
        before.quorum() matches Some(q) ==> {
            &&& after.quorum() is Some
            &&& freed + after.quorum()->0.pending == q.pending
            &&& after.quorum()->0.high_waters.contains_key(replica)
            &&& after.quorum()->0.high_waters[replica] >= seq
            &&& exists|w: u64| #[trigger]
                after.quorum()->0.commits(w) && (forall|i: int|
                    0 <= i < freed.len() ==> (#[trigger] freed[i]).0 <= w) && (
                after.quorum()->0.pending.len() > 0 ==> after.quorum()->0.pending[0].0 > w)
        },
{
    if let Some(q) = before.quorum() {
        let all = q.acked(replica, seq);
        let w = choose|w: u64| #[trigger]
            all.commits(w) && freed == all.pending.take(ripe(all.pending, w) as int)
                && after.quorum() == Some(all.released(ripe(all.pending, w)));
        let k = ripe(all.pending, w) as int;
        crate::quorum::law_outputs_wait_in_order(q, Seq::empty(), replica, seq);
        crate::quorum::law_committed_entries_are_released(all, w, 0);
        assert forall|i: int| 0 <= i < freed.len() implies (#[trigger] freed[i]).0 <= w by {
            crate::quorum::law_committed_entries_are_released(all, w, i);
        }
        assert(freed + after.quorum()->0.pending =~= q.pending);
        let c = choose|c: u64|
            crate::commit::is_watermark(all.high_waters, all.voters, c) && w == if c > all.floor {
                c
            } else {
                all.floor
            };
        assert(crate::commit::is_watermark(
            after.quorum()->0.high_waters,
            after.quorum()->0.voters,
            c,
        ));
        assert(after.quorum()->0.commits(w));
        if after.quorum()->0.pending.len() > 0 {
            assert(after.quorum()->0.pending[0] == all.pending[k]);
        }
    }
}

/// On a disk that works, with seqs left and no file in the way, a node that takes
/// no snapshots and has no timer due behind the frame sequences it.
pub proof fn law_nothing_else_keeps_a_node_from_going_on<S: Service, T: TimeSource, St: Storage>(
    node: Node<S, T, St>,
    kind: FrameKind,
    payload: Seq<u8>,
    time: u64,
)
    requires
        node.reliable(),
        node.faithful(),
        node.takes(payload.len()),
        node.tip() + 2 < u64::MAX,
        node.rules().every is None,
        ({
            let f = Record {
                seq: (node.tip() + 1) as u64,
                time,
                stream_id: node.rules().stream_id,
                kind,
                payload,
            };
            next_due((feed::<S>(node.rules().config, node.machine(), f)->Ok_0).0.wheel, time) is None
        }),
    ensures
        node.smooth(kind, payload, time),
        node.alone(kind, payload, time),
{
}

/// What a node writes for a frame: the frame itself, behind its journal; and where
/// a snapshot is due, the machine behind the frame as the snapshot at its seq, then
/// the mark, and then what is to be kept is trimmed. Nothing is written for a mark
/// whose snapshot is refused.
pub proof fn law_frame_is_written_before_its_snapshot<S: Service>(
    home: Home,
    rules: Rules<S::Config>,
    shelf: Shelf,
    p: Progress,
    kind: FrameKind,
    payload: Seq<u8>,
    time: u64,
)
    requires
        p.seq + 2 <= u64::MAX,
    ensures
        ({
            let f = Record {
                seq: (p.seq + 1) as u64,
                time,
                stream_id: rules.stream_id,
                kind,
                payload,
            };
            let mark = Record {
                seq: (p.seq + 2) as u64,
                time,
                stream_id: rules.stream_id,
                kind: FrameKind::SnapshotMark,
                payload: SeqNo(f.seq).bytes(),
            };
            let led = (feed::<S>(rules.config, p.machine, f)->Ok_0).0;
            let r = shelved_one::<S>(home, rules, shelf, p, kind, payload, time);
            match filing(shelf.disk, home.dir, shelf.pending, home.segment_bytes, f) {
                Err(e) => r == Err::<Shelf, NodeError>(NodeError::Journal(e)),
                Ok(disk) => if !snapshot_due(rules.every, f.seq) {
                    r == Ok::<Shelf, NodeError>(Shelf { disk, pending: true })
                } else {
                    match shelved_snapshot(home, Shelf { disk, pending: true }, f.seq, led) {
                        Err(e) => r == Err::<Shelf, NodeError>(e),
                        Ok(saved) => match filing(
                            saved.disk,
                            home.dir,
                            true,
                            home.segment_bytes,
                            mark,
                        ) {
                            Err(e) => r == Err::<Shelf, NodeError>(NodeError::Journal(e)),
                            Ok(last) => r == Ok::<Shelf, NodeError>(
                                Shelf { disk: trimmed(home, last), pending: true },
                            ),
                        },
                    }
                },
            }
        }),
{
}

} // verus!
