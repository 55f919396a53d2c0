//! Why the simulator finds no fault with a service that arms no timers and
//! whose invariants hold of every state it can reach.

use vstd::prelude::*;

use crate::codec::{CodecError, Encode};
use crate::frame::{FrameKind, Record};
use crate::journal::held;
use crate::machine::{genesis_machine, Machine};
use crate::node::inspect::{law_history_survives_power_loss, law_node_survives_power_loss};
use crate::node::startup::{law_fresh_disk, mended, told};
use crate::node::{advanced, executed, next_frame, NodeConfig};
use crate::recovery::{anchor, covered, is_snapshot, replay_after};
use crate::rng::Rng;
use crate::service::Service;
use crate::sim::judge::{answers, full, mismatch, rerun, Entry};
use crate::sim::run::{
    blank, configured, lost_power, node_charge, noted_down, on_track, opened_on, opens_again,
    readable, sim_dir, SimNode,
};
use crate::sim::{Invariants, SimConfig};
use crate::storage::DiskModel;

verus! {

/// The service never arms a timer.
pub open spec fn timeless<S: Service>(config: S::Config) -> bool {
    forall|state: Seq<u8>, seq: u64, now: u64, input: Seq<u8>|
        (#[trigger] S::step(config, state, seq, now, input)).timers.len() == 0
}

/// The service's invariants hold of every state that inputs lead to.
pub open spec fn faultless<S: Invariants>(config: S::Config) -> bool {
    forall|frames: Seq<Record>|
        (#[trigger] rerun::<S>(config, frames)) matches Ok(state) ==> S::verdict(
            config,
            state,
        ) is None
}

/// Without snapshots, and with segments that hold every frame of the
/// workload, a conforming service is to come through.
pub open spec fn conforming<S: Invariants, G: Fn(&mut Rng) -> S::Input>(
    config: SimConfig,
    service_config: S::Config,
    gen_input: G,
) -> bool {
    &&& config.snapshot_every is None
    &&& 60 <= config.segment_bytes
    &&& forall|rng: &mut Rng, input: S::Input| #[trigger]
        call_ensures(gen_input, (rng,), input) ==> 60 + input.bytes().len()
            <= config.segment_bytes
    &&& timeless::<S>(service_config)
    &&& faultless::<S>(service_config)
}

/// The journal holds exactly what was submitted.
pub open spec fn in_step(frames: Seq<Record>, expected: Seq<Entry>) -> bool {
    &&& frames.len() == expected.len()
    &&& forall|i: int|
        0 <= i < frames.len() ==> (#[trigger] frames[i]).seq == i + 1 && answers(
            frames[i],
            expected[i],
        ) && (frames[i].kind == FrameKind::Input || frames[i].kind == FrameKind::Tick)
}

/// A run that nothing can be held against.
#[verifier::opaque]
pub open spec fn steady<S: Invariants>(
    config: SimConfig,
    service_config: S::Config,
    node: SimNode<S>,
    expected: Seq<Entry>,
    synced: nat,
) -> bool {
    &&& node.faithful()
    &&& node.bare()
    &&& forall|len: nat| 60 + len <= config.segment_bytes ==> #[trigger] node.takes(len)
    &&& node.tip() == expected.len()
    &&& in_step(node.frames(), expected)
    &&& rerun::<S>(service_config, node.frames()) == Ok::<Seq<u8>, (u64, CodecError)>(
        node.machine().state,
    )
    &&& node.machine().wheel == Map::<u64, (u64, u64)>::empty()
    &&& synced <= node.durable()
}

/// Where no timer is armed, replaying frames is running their inputs.
proof fn lemma_rerun_is_replay<S: Service>(config: S::Config, frames: Seq<Record>, m: Machine)
    requires
        timeless::<S>(config),
        forall|i: int|
            0 <= i < frames.len() ==> (#[trigger] frames[i]).seq > 0 && (frames[i].kind
                == FrameKind::Input || frames[i].kind == FrameKind::Tick),
        replay_after::<S>(config, genesis_machine::<S>(config), frames, 0) == Ok::<
            Machine,
            (u64, CodecError),
        >(m),
    ensures
        rerun::<S>(config, frames) == Ok::<Seq<u8>, (u64, CodecError)>(m.state),
        m.wheel == Map::<u64, (u64, u64)>::empty(),
    decreases frames.len(),
{
    if frames.len() > 0 {
        let front = frames.drop_last();
        let f = frames.last();
        assert(f == frames[frames.len() - 1]);
        assert forall|i: int| 0 <= i < front.len() implies (#[trigger] front[i]).seq > 0 && (
        front[i].kind == FrameKind::Input || front[i].kind == FrameKind::Tick) by {
            assert(front[i] == frames[i]);
        }
        let before = replay_after::<S>(config, genesis_machine::<S>(config), front, 0)->Ok_0;
        lemma_rerun_is_replay::<S>(config, front, before);
    }
}

/// The first frames are in step with the first entries.
proof fn lemma_in_step_prefix(frames: Seq<Record>, expected: Seq<Entry>, n: int)
    requires
        in_step(frames, expected),
        0 <= n <= frames.len(),
    ensures
        in_step(frames.take(n), expected.take(n)),
{
    assert forall|i: int| 0 <= i < n implies (#[trigger] frames.take(n)[i]).seq == i + 1
        && answers(frames.take(n)[i], expected.take(n)[i]) && (frames.take(n)[i].kind
        == FrameKind::Input || frames.take(n)[i].kind == FrameKind::Tick) by {
        assert(frames.take(n)[i] == frames[i]);
    }
}

/// Frames in step match.
proof fn lemma_no_mismatch(frames: Seq<Record>, expected: Seq<Entry>, i: nat)
    requires
        frames.len() <= expected.len(),
        in_step(frames, expected.take(frames.len() as int)),
        i <= frames.len(),
    ensures
        mismatch(expected, 1, frames, i) is None,
    decreases frames.len() - i,
{
    if i < frames.len() {
        assert(frames[i as int].seq == i + 1);
        assert(expected.take(frames.len() as int)[i as int] == expected[i as int]);
        lemma_no_mismatch(frames, expected, i + 1);
    }
}

/// A disk without snapshots offers none to start from.
proof fn lemma_nothing_to_pick<S: Service>(config: S::Config, disk: DiskModel, dir: Seq<u8>)
    requires
        forall|p: Seq<u8>| !#[trigger] is_snapshot(disk, dir, p),
    ensures
        anchor::<S>(config, disk, dir) is None,
{
    let none = Seq::<Seq<u8>>::empty();
    let ext = crate::paths::snap_ext();
    let snaps = crate::listing::wanted(disk, dir, ext);
    assert forall|p: Seq<u8>| !#[trigger] snaps(p) by {
        assert(!is_snapshot(disk, dir, p));
    }
    assert(crate::paths::is_listing(none, snaps));
    crate::listing::lemma_is_the_listing(none, disk, dir, ext);
    assert(crate::snapshot::candidates(disk, dir, crate::recovery::ceiling(disk, dir)).len() == 0);
}

/// What is true of a node that was opened on a disk without snapshots.
proof fn lemma_opened_bare<S: Invariants>(
    config: SimConfig,
    service_config: S::Config,
    disk: DiskModel,
    node: SimNode<S>,
)
    requires
        opened_on(config, service_config, disk, node),
        readable(disk),
        forall|p: Seq<u8>| !#[trigger] is_snapshot(disk, sim_dir(), p),
        crate::paths::is_listing(
            crate::journal::segments(disk, sim_dir()),
            crate::listing::wanted(disk, sim_dir(), crate::paths::seg_ext()),
        ),
    ensures
        on_track(config, service_config, node),
        node.bare(),
        forall|len: nat| 60 + len <= config.segment_bytes ==> #[trigger] node.takes(len),
        node.frames() == held(disk, sim_dir()).frames,
        node.tip() == crate::journal::seq_before(held(disk, sim_dir()).next),
        replay_after::<S>(
            service_config,
            genesis_machine::<S>(service_config),
            held(disk, sim_dir()).frames,
            0,
        ) == Ok::<Machine, (u64, CodecError)>(node.machine()),
        node.durable() == node.frames().len(),
        told::<S>(service_config, disk, sim_dir()) && covered(disk, sim_dir())
            && crate::node::startup::tidy_names(disk, sim_dir()) ==> node.faithful(),
{
    reveal(opened_on);
    let dir = sim_dir();
    let d = mended(disk, dir);
    crate::node::startup::lemma_mended(disk, dir);
    assert forall|p: Seq<u8>| !#[trigger] is_snapshot(d, dir, p) by {
        if is_snapshot(d, dir, p) {
            assert(is_snapshot(disk, dir, p));
        }
    }
    lemma_nothing_to_pick::<S>(service_config, d, dir);
    let (c, from) = choose|c: NodeConfig, from: Option<(u64, Machine)>|
        configured(c, config) && #[trigger] node.opened(c, service_config, disk, from) && from
            == anchor::<S>(service_config, mended(disk, sim_dir()), sim_dir());
    assert(node.opened(c, service_config, disk, from));
    node.lemma_synced();
}

/// A new run is steady.
pub proof fn lemma_begins_steady<S: Invariants>(
    config: SimConfig,
    service_config: S::Config,
    disk: DiskModel,
    node: SimNode<S>,
)
    requires
        timeless::<S>(service_config),
        blank(disk),
        opened_on(config, service_config, disk, node),
    ensures
        steady(config, service_config, node, Seq::<Entry>::empty(), 0),
{
    reveal(steady);
    law_fresh_disk::<S>(service_config, disk, sim_dir());
    assert forall|p: Seq<u8>| !#[trigger] is_snapshot(disk, sim_dir(), p) by {
        assert(!disk.has(p));
    }
    lemma_opened_bare::<S>(config, service_config, disk, node);
    lemma_rerun_is_replay::<S>(service_config, node.frames(), node.machine());
}

/// After power loss a steady run's node opens again, whatever was lost.
pub proof fn lemma_opens_again<S: Invariants>(
    config: SimConfig,
    service_config: S::Config,
    node: SimNode<S>,
    expected: Seq<Entry>,
    synced: nat,
    disk: DiskModel,
)
    requires
        config.snapshot_every is None,
        on_track(config, service_config, node),
        steady(config, service_config, node, expected, synced),
        lost_power(node.disk(), disk, config.torn_tails),
    ensures
        opens_again::<S>(service_config, disk),
{
    reveal(steady);
    law_history_survives_power_loss(node, disk, config.torn_tails);
    lemma_lost_bare(node, disk, config.torn_tails);
    crate::node::startup::lemma_mended(disk, sim_dir());
    let d = mended(disk, sim_dir());
    assert forall|p: Seq<u8>| !#[trigger] is_snapshot(d, sim_dir(), p) by {
        if is_snapshot(d, sim_dir(), p) {
            assert(is_snapshot(disk, sim_dir(), p));
        }
    }
    lemma_nothing_to_pick::<S>(service_config, d, sim_dir());
}

/// Power loss makes no snapshots.
proof fn lemma_lost_bare<S: Service>(node: SimNode<S>, disk: DiskModel, torn: bool)
    requires
        node.bare(),
        node.dir() == sim_dir(),
        lost_power(node.disk(), disk, torn),
    ensures
        forall|p: Seq<u8>| !#[trigger] is_snapshot(disk, sim_dir(), p),
{
    assert forall|p: Seq<u8>| !#[trigger] is_snapshot(disk, sim_dir(), p) by {
        if is_snapshot(disk, sim_dir(), p) {
            assert(disk.files.dom().contains(p));
            assert(node.disk().files.dom().contains(p));
            assert(is_snapshot(node.disk(), node.dir(), p));
        }
    }
}

/// A steady run's node passes the checklist after power loss, and the run
/// stays steady.
pub proof fn lemma_comes_back<S: Invariants>(
    config: SimConfig,
    service_config: S::Config,
    node: SimNode<S>,
    expected: Seq<Entry>,
    synced: nat,
    disk: DiskModel,
    reopened: SimNode<S>,
)
    requires
        config.snapshot_every is None,
        timeless::<S>(service_config),
        faultless::<S>(service_config),
        on_track(config, service_config, node),
        steady(config, service_config, node, expected, synced),
        lost_power(node.disk(), disk, config.torn_tails),
        opened_on(config, service_config, disk, reopened),
    ensures
        node_charge(service_config, expected, synced, reopened) is None,
        reopened.tip() <= expected.len(),
        steady(
            config,
            service_config,
            reopened,
            expected.take(reopened.tip() as int),
            reopened.tip() as nat,
        ),
{
    reveal(steady);
    reveal(node_charge);
    let dir = sim_dir();
    law_node_survives_power_loss(node, disk, config.torn_tails);
    law_history_survives_power_loss(node, disk, config.torn_tails);
    lemma_lost_bare(node, disk, config.torn_tails);
    lemma_opened_bare::<S>(config, service_config, disk, reopened);
    let found = held(disk, dir);
    let n = found.frames.len() as int;
    let segs = crate::journal::segments(disk, dir);
    crate::journal::lemma_recover_order(segs, disk.files, segs.len());
    lemma_in_step_prefix(node.frames(), expected, n);
    assert(found.next == n + 1);
    reopened.lemma_journal();
    lemma_rerun_is_replay::<S>(service_config, found.frames, reopened.machine());
    lemma_no_mismatch(found.frames, expected, 0);
    let first = crate::sim::run::journal_first(reopened.disk());
    assert(reopened.frames() == found.frames);
    assert(first == 1);
    assert(full(expected, first, reopened.frames()) =~= reopened.frames());
}

/// The frame that is submitted next: an input that decodes, or a tick.
pub open spec fn submittable<S: Service>(config: SimConfig, kind: FrameKind, payload: Seq<u8>) -> bool {
    &&& 60 + payload.len() <= config.segment_bytes
    &&& kind == FrameKind::Tick || (kind == FrameKind::Input && crate::codec::parse_all::<S::Input>(
        payload,
    ) is Ok)
}

/// In a steady run a frame is sequenced alone: no timer fires behind it, and
/// nothing stands in its way.
pub proof fn lemma_goes_smoothly<S: Invariants>(
    config: SimConfig,
    service_config: S::Config,
    node: SimNode<S>,
    expected: Seq<Entry>,
    synced: nat,
    kind: FrameKind,
    payload: Seq<u8>,
    time: u64,
)
    requires
        config.snapshot_every is None,
        timeless::<S>(service_config),
        on_track(config, service_config, node),
        steady(config, service_config, node, expected, synced),
        expected.len() <= u32::MAX,
        submittable::<S>(config, kind, payload),
    ensures
        node.smooth(kind, payload, time),
        advanced::<S>(node.rules(), node.progress(), kind, payload, time) == executed::<S>(
            node.rules(),
            node.progress(),
            kind,
            payload,
            time,
        ),
        executed::<S>(
            node.rules(),
            node.progress(),
            kind,
            payload,
            time,
        ).machine.wheel == Map::<u64, (u64, u64)>::empty(),
{
    reveal(steady);
    let rules = node.rules();
    let p = node.progress();
    let q = executed::<S>(rules, p, kind, payload, time);
    if kind == FrameKind::Input {
        let input = crate::codec::parse_all::<S::Input>(payload)->Ok_0;
        let step = S::step(rules.config, p.machine.state, (p.seq + 1) as u64, time, input);
        assert(step.timers.len() == 0);
    }
    assert(q.machine.wheel == Map::<u64, (u64, u64)>::empty());
    assert forall|id: u64| !#[trigger] crate::timer::is_next(q.machine.wheel, time, id) by {}
    assert(crate::timer::next_due(q.machine.wheel, time) is None);
}

/// A steady run stays steady when a frame is sequenced, and the state behind
/// it is faultless.
pub proof fn lemma_goes_on_steady<S: Invariants>(
    config: SimConfig,
    service_config: S::Config,
    node: SimNode<S>,
    expected: Seq<Entry>,
    synced: nat,
    kind: FrameKind,
    payload: Seq<u8>,
    now: u64,
    time: u64,
    after: SimNode<S>,
)
    requires
        config.snapshot_every is None,
        timeless::<S>(service_config),
        faultless::<S>(service_config),
        on_track(config, service_config, node),
        steady(config, service_config, node, expected, synced),
        expected.len() <= u32::MAX,
        submittable::<S>(config, kind, payload),
        after.moved(
            &node,
            advanced::<S>(node.rules(), node.progress(), kind, payload, time),
            time,
        ),
    ensures
        steady(
            config,
            service_config,
            after,
            noted_down(config.snapshot_every, expected, kind, now, payload),
            synced,
        ),
        S::verdict(service_config, after.machine().state) is None,
{
    lemma_goes_smoothly(
        config,
        service_config,
        node,
        expected,
        synced,
        kind,
        payload,
        time,
    );
    reveal(steady);
    let f = next_frame(node.rules(), node.progress(), kind, payload, time);
    let more = expected.push(Entry { kind, time: now, payload });
    let frames = node.frames().push(f);
    assert(node.frames() + Seq::<Record>::empty().push(f) =~= frames);
    assert(after.frames() == frames);
    assert forall|i: int| 0 <= i < frames.len() implies (#[trigger] frames[i]).seq == i + 1
        && answers(frames[i], more[i]) && (frames[i].kind == FrameKind::Input || frames[i].kind
        == FrameKind::Tick) by {
        if i < node.frames().len() {
            assert(frames[i] == node.frames()[i]);
            assert(more[i] == expected[i]);
        }
    }
    assert(frames.drop_last() =~= node.frames());
    assert(rerun::<S>(service_config, frames) == Ok::<Seq<u8>, (u64, CodecError)>(
        after.machine().state,
    ));
    assert forall|len: nat| 60 + len <= config.segment_bytes implies #[trigger] after.takes(
        len,
    ) by {
        after.lemma_takes(len);
    }
}

/// A sync keeps a steady run steady.
pub proof fn lemma_synced_steady<S: Invariants>(
    config: SimConfig,
    service_config: S::Config,
    node: SimNode<S>,
    expected: Seq<Entry>,
    synced: nat,
    after: SimNode<S>,
)
    requires
        steady(config, service_config, node, expected, synced),
        on_track(config, service_config, after),
        after.same_run(&node),
        after.frames() == node.frames(),
        !after.pending(),
        after.faithful(),
        after.bare(),
        forall|len: nat| #[trigger] after.takes(len) == node.takes(len),
    ensures
        steady(config, service_config, after, expected, expected.len()),
{
    reveal(steady);
    after.lemma_synced();
}

} // verus!
