//! Simulated runs: one seed, or many.

use vstd::prelude::*;
use vstd::string::StringExecFns;

use crate::codec::Encode;
use crate::frame::{FrameKind, MAX_PAYLOAD_LEN};
use crate::journal::{flushed_end, held, names_right, recover, seq_before, FsyncPolicy, Journal};
use crate::machine::Machine;
use crate::message::node_text;
use crate::node::inspect::law_node_survives_power_loss;
use crate::node::startup::{came_up, law_fresh_disk, mended, owed, room, synced_throughout,
    tidy_names, told};
use crate::node::{advanced, snapshot_due, Home, Node, NodeConfig, NodeError, Rules, Shelf};
use crate::recovery::{anchor, covered, is_snapshot};
use crate::rng::{draw, next_state, Rng};
use crate::seq::{SeqNo, Timestamp};
use crate::server::clones_equal;
use crate::service::Service;
use crate::sim::clean::{
    conforming, faultless, lemma_begins_steady, lemma_comes_back, lemma_goes_on_steady,
    lemma_goes_smoothly, lemma_opens_again, lemma_synced_steady, steady, timeless,
};
use crate::sim::replay::{law_cut_schedule_fails_alike, same_result};
use crate::sim::judge::{charge, entries, judge, Entry, Expected};
use crate::sim::{InvariantViolation, Invariants, ShrunkFailure, SimClock, SimConfig, SimFailure,
    SimStats};
use crate::sim_storage::{power_loss, survives, SimStorage};
use crate::storage::{Disk, DiskModel, Storage};
use crate::text::text;

verus! {

/// A node on a simulated disk.
pub type SimNode<S> = Node<S, SimClock, SimStorage>;

/// `/sim/journal`, where the simulated node keeps its journal.
pub open spec fn sim_dir() -> Seq<u8> {
    seq![
        0x2Fu8, 0x73u8, 0x69u8, 0x6Du8, 0x2Fu8, 0x6Au8, 0x6Fu8, 0x75u8, 0x72u8, 0x6Eu8, 0x61u8,
        0x6Cu8,
    ]
}

/// The configuration of the simulated node. It never syncs by itself, so that
/// what was not synced can be lost.
pub open spec fn configured(node: NodeConfig, config: SimConfig) -> bool {
    &&& node.journal.dir@ == sim_dir()
    &&& node.journal.segment_bytes == config.segment_bytes
    &&& node.journal.fsync == FsyncPolicy::Never
    &&& node.stream_id == 1
    &&& node.snapshot_every == config.snapshot_every
    &&& node.retain_snapshots == 2
    &&& node.quorum is None
}

fn node_config(config: &SimConfig) -> (r: NodeConfig)
    ensures
        configured(r, *config),
{
    let dir: Vec<u8> = vec![
        0x2F, 0x73, 0x69, 0x6D, 0x2F, 0x6A, 0x6F, 0x75, 0x72, 0x6E, 0x61, 0x6C,
    ];
    assert(dir@ =~= sim_dir());
    let mut r = NodeConfig::new(dir.as_slice());
    r.journal.segment_bytes = config.segment_bytes;
    r.journal.fsync = FsyncPolicy::Never;
    r.snapshot_every = config.snapshot_every;
    r
}

/// The rules that the simulated node sequences by.
pub open spec fn sim_rules<C>(config: SimConfig, service_config: C) -> Rules<C> {
    Rules { config: service_config, stream_id: 1, every: config.snapshot_every }
}

/// Where the simulated node keeps what it writes.
pub open spec fn sim_home(config: SimConfig) -> Home {
    Home { dir: sim_dir(), segment_bytes: config.segment_bytes, retains: 2 }
}

/// The node runs as the simulator set it up.
pub open spec fn on_track<S: Service>(
    config: SimConfig,
    service_config: S::Config,
    node: SimNode<S>,
) -> bool {
    &&& node.wf()
    &&& node.settled()
    &&& node.reliable()
    &&& node.dir() == sim_dir()
    &&& node.rules() == sim_rules(config, service_config)
    &&& node.home() == sim_home(config)
    &&& node.lazy()
    &&& node.quorum() is None
}

/// Power loss leaves `after` of `before`.
pub open spec fn lost_power(before: DiskModel, after: DiskModel, torn: bool) -> bool {
    &&& after.files.dom() == before.files.dom()
    &&& after.epoch == before.epoch + 1
    &&& forall|p: Seq<u8>| #[trigger]
        before.has(p) ==> survives(before.files[p], after.files[p], torn)
}

/// The journal in the simulated directory can be read.
pub open spec fn readable(disk: DiskModel) -> bool {
    &&& names_right(disk, sim_dir())
    &&& recover(disk, sim_dir()) is Ok
    &&& held(disk, sim_dir()).frames.len() < held(disk, sim_dir()).next
    &&& synced_throughout(disk, sim_dir())
}

/// The seq that the journal starts at.
pub open spec fn journal_first(disk: DiskModel) -> u64 {
    let found = held(disk, sim_dir());
    if found.frames.len() > 0 {
        found.frames[0].seq
    } else {
        (seq_before(found.next) + 1) as u64
    }
}

/// The node is what opening on `disk` leads to.
#[verifier::opaque]
pub open spec fn opened_on<S: Service>(
    config: SimConfig,
    service_config: S::Config,
    disk: DiskModel,
    node: SimNode<S>,
) -> bool {
    &&& on_track(config, service_config, node)
    &&& node.disk().epoch == disk.epoch
    &&& owed::<S>(service_config, disk, sim_dir(), Ok(()))
    &&& node.disk() == came_up::<S>(service_config, disk, sim_dir())
    &&& !node.pending()
    &&& exists|c: NodeConfig, from: Option<(u64, Machine)>|
        configured(c, config) && #[trigger] node.opened(c, service_config, disk, from) && from
            == anchor::<S>(service_config, mended(disk, sim_dir()), sim_dir())
    &&& told::<S>(service_config, disk, sim_dir()) && covered(disk, sim_dir()) && tidy_names(
        disk,
        sim_dir(),
    ) ==> node.faithful()
    &&& forall|len: nat| 60 + len <= config.segment_bytes ==> #[trigger] node.takes(len)
    &&& (forall|p: Seq<u8>| !#[trigger] is_snapshot(disk, sim_dir(), p)) ==> node.bare()
}

proof fn lemma_opened_on<S: Service>(
    config: SimConfig,
    service_config: S::Config,
    disk: DiskModel,
    node: SimNode<S>,
)
    requires
        opened_on(config, service_config, disk, node),
    ensures
        on_track(config, service_config, node),
        node.disk().epoch == disk.epoch,
{
    reveal(opened_on);
}

/// What is on the disk tells of a history, and nothing keeps a node from
/// going on from it.
pub open spec fn opens_again<S: Service>(service_config: S::Config, disk: DiskModel) -> bool {
    &&& told::<S>(service_config, disk, sim_dir())
    &&& covered(disk, sim_dir())
    &&& room(
        disk,
        sim_dir(),
        anchor::<S>(service_config, mended(disk, sim_dir()), sim_dir()),
    )
}

/// What the checklist says of a recovered node.
#[verifier::opaque]
pub open spec fn node_charge<S: Invariants>(
    service_config: S::Config,
    expected: Seq<Entry>,
    synced: nat,
    node: SimNode<S>,
) -> Option<Seq<char>> {
    charge::<S>(
        service_config,
        expected,
        synced,
        node.tip(),
        journal_first(node.disk()),
        node.frames(),
        node.machine().state,
    )
}

/// Why a node did not come back from `disk`.
#[verifier::opaque]
pub open spec fn stays_down<S: Invariants>(
    config: SimConfig,
    service_config: S::Config,
    disk: DiskModel,
    expected: Seq<Entry>,
    synced: nat,
    what: Seq<char>,
) -> bool {
    ||| exists|e: NodeError|
        owed::<S>(service_config, disk, sim_dir(), Err(e)) && what
            == "recovery failed after crash: "@ + #[trigger] node_text(e)
    ||| exists|node: SimNode<S>|
        opened_on(config, service_config, disk, node) && #[trigger] node_charge(
            service_config,
            expected,
            synced,
            node,
        ) == Some(what)
}

fn prefixed(prefix: &str, e: &NodeError) -> (r: InvariantViolation)
    ensures
        r.what@ == prefix@ + node_text(*e),
{
    let mut out = text(prefix);
    out.append(e.message().as_str());
    InvariantViolation::new(out)
}

/// Opens the node again after power loss and runs the checklist. What was
/// lost is no longer expected, and what came through is durable.
pub(crate) fn recover_and_check<S: Invariants>(
    step: u32,
    config: &SimConfig,
    service_config: &S::Config,
    storage: SimStorage,
    clock: SimClock,
    expected: &mut Vec<Expected>,
    synced: &mut usize,
) -> (r: Result<SimNode<S>, SimFailure>) where S::Config: Clone
    requires
        clones_equal::<S::Config>(),
        readable(storage.view()),
        storage.reliable(),
    ensures
        match r {
            Ok(node) => {
                &&& opened_on(*config, *service_config, storage.view(), node)
                &&& node_charge(
                    *service_config,
                    entries(old(expected)@),
                    *old(synced) as nat,
                    node,
                ) is None
                &&& node.tip() <= old(expected)@.len()
                &&& final(expected)@ == old(expected)@.take(node.tip() as int)
                &&& *final(synced) == node.tip()
            },
            Err(f) => {
                &&& f.seed == config.seed
                &&& f.step == step
                &&& stays_down::<S>(
                    *config,
                    *service_config,
                    storage.view(),
                    entries(old(expected)@),
                    *old(synced) as nat,
                    f.violation.what@,
                )
            },
        },
        opens_again::<S>(*service_config, storage.view()) && (forall|node: SimNode<S>|
            opened_on(*config, *service_config, storage.view(), node) ==> #[trigger] node_charge(
                *service_config,
                entries(old(expected)@),
                *old(synced) as nat,
                node,
            ) is None) ==> r is Ok,
{
    proof {
        reveal(opened_on);
        reveal(node_charge);
        reveal(stays_down);
    }
    let ghost disk = storage.view();
    let given = service_config.clone();
    assert(cloned(*service_config, given));
    let setup = node_config(config);
    let ghost shown = setup;
    let node: SimNode<S> = match Node::open_with(setup, given, clock, storage) {
        Ok(n) => n,
        Err(e) => {
            assert(node_text(e) == node_text(e));
            return Err(
                SimFailure {
                    seed: config.seed,
                    step,
                    violation: prefixed("recovery failed after crash: ", &e),
                },
            );
        },
    };
    proof {
        let from = choose|from: Option<(u64, Machine)>| #[trigger]
            node.opened(shown, *service_config, disk, from) && from == anchor::<S>(
                *service_config,
                mended(disk, sim_dir()),
                sim_dir(),
            );
        assert(node.opened(shown, *service_config, disk, from));
        assert(opened_on(*config, *service_config, disk, node));
        node.lemma_journal();
    }
    let recovered: SeqNo = node.seq();
    let mut copy = node.storage().copy();
    let again = match Journal::open_with(node_config(config).journal, &mut copy) {
        Ok(r) => r,
        Err(e) => {
            assert(false);
            let inner = NodeError::Journal(e);
            return Err(
                SimFailure {
                    seed: config.seed,
                    step,
                    violation: prefixed("journal re-read failed: ", &inner),
                },
            );
        },
    };
    let ghost before = expected@;
    let verdict = judge(
        service_config,
        expected,
        *synced,
        recovered,
        again.first_seq,
        &again.frames,
        node.service(),
    );
    assert(again.first_seq.0 == journal_first(node.disk()));
    if let Err(violation) = verdict {
        assert(node_charge(*service_config, entries(before), *synced as nat, node) == Some(
            violation.what@,
        ));
        return Err(SimFailure { seed: config.seed, step, violation });
    }
    let len: usize = expected.len();
    assert(recovered.0 <= len);
    expected.truncate(recovered.0 as usize);
    *synced = recovered.0 as usize;
    Ok(node)
}

/// What one step does.
pub enum Op {
    Crash,
    Sync,
    Tick,
    Input,
}

/// The operation that a number below 1000 stands for.
pub open spec fn op_of(config: SimConfig, dice: u64) -> Op {
    let crash = config.crash_per_mille as int;
    let sync = crash + config.sync_per_mille;
    let tick = sync + config.tick_per_mille;
    if dice < crash {
        Op::Crash
    } else if dice < sync {
        Op::Sync
    } else if dice < tick {
        Op::Tick
    } else {
        Op::Input
    }
}

/// Where a run stands.
pub struct World<S: Service> {
    /// The generator's state.
    pub rng: u64,
    pub clock: u64,
    pub node: SimNode<S>,
    pub expected: Seq<Entry>,
    /// How many frames are known to be durable.
    pub synced: nat,
    pub stats: SimStats,
}

impl<S: Service> World<S> {
    /// The operation that comes next.
    pub open spec fn next_op(&self, config: SimConfig) -> Op {
        op_of(config, draw(next_state(self.rng)) % 1000)
    }

    /// The generator behind the two draws that every step begins with.
    pub open spec fn drawn(&self) -> u64 {
        next_state(next_state(self.rng))
    }

    /// The time at which the next operation happens.
    pub open spec fn next_clock(&self) -> u64 {
        self.clock.wrapping_add(draw(self.rng) % 1_000_000_000)
    }
}

/// With one submitted frame, and with the snapshot mark behind it where a
/// snapshot is due.
pub open spec fn noted_down(
    every: Option<u64>,
    expected: Seq<Entry>,
    kind: FrameKind,
    time: u64,
    payload: Seq<u8>,
) -> Seq<Entry> {
    let one = expected.push(Entry { kind, time, payload });
    if snapshot_due(every, one.len() as u64) {
        one.push(
            Entry {
                kind: FrameKind::SnapshotMark,
                time,
                payload: SeqNo(one.len() as u64).bytes(),
            },
        )
    } else {
        one
    }
}

/// A new run.
pub open spec fn begins<S: Service>(
    config: SimConfig,
    service_config: S::Config,
    w: World<S>,
) -> bool {
    &&& w.rng == config.seed
    &&& w.clock == 1_000_000_000
    &&& w.expected == Seq::<Entry>::empty()
    &&& w.synced == 0
    &&& w.stats == (SimStats { inputs: 0, ticks: 0, syncs: 0, crashes: 0 })
    &&& exists|disk: DiskModel|
        blank(disk) && #[trigger] opened_on(config, service_config, disk, w.node)
}

/// A disk without files that never lost power.
pub open spec fn blank(disk: DiskModel) -> bool {
    disk.files == Map::<Seq<u8>, crate::storage::FileModel>::empty() && disk.epoch == 0
}

/// The node of `z` is `node` after power loss, drawn from a generator in state
/// `rng`, and passed the checklist.
#[verifier::opaque]
pub open spec fn came_back<S: Invariants>(
    config: SimConfig,
    service_config: S::Config,
    node: SimNode<S>,
    expected: Seq<Entry>,
    synced: nat,
    rng: u64,
    z: World<S>,
) -> bool {
    let (disk, drawn) = power_loss(node.disk(), rng, config.torn_tails);
    &&& lost_power(node.disk(), disk, config.torn_tails)
    &&& opened_on(config, service_config, disk, z.node)
    &&& z.rng == drawn
    &&& node_charge(service_config, expected, synced, z.node) is None
    &&& z.node.tip() <= expected.len()
    &&& z.expected == expected.take(z.node.tip() as int)
    &&& z.synced == z.node.tip()
}

/// The node of `z` is `node` with a tick sequenced at time `now`.
#[verifier::opaque]
pub open spec fn ticked<S: Service>(
    config: SimConfig,
    node: SimNode<S>,
    expected: Seq<Entry>,
    now: u64,
    z: World<S>,
) -> bool {
    &&& z.node.noted(&node, FrameKind::Tick, Seq::empty(), now)
    &&& node.shelving(FrameKind::Tick, Seq::empty(), now) == Ok::<Shelf, NodeError>(
        z.node.shelf(),
    )
    &&& z.expected == noted_down(
        config.snapshot_every,
        expected,
        FrameKind::Tick,
        now,
        Seq::empty(),
    )
}

/// The node of `z` is `node` with everything synced.
#[verifier::opaque]
pub open spec fn saved<S: Service>(node: SimNode<S>, expected: Seq<Entry>, z: World<S>) -> bool {
    &&& z.node.same_run(&node)
    &&& z.node.frames() == node.frames()
    &&& !z.node.pending()
    &&& z.node.disk() == flushed_end(node.disk(), node.dir(), node.pending())
    &&& z.expected == expected
    &&& z.synced == expected.len()
}

/// The workload may draw `input` from a generator in state `state`.
pub open spec fn drew<I, G: Fn(&mut Rng) -> I>(gen_input: G, state: u64, input: I) -> bool {
    exists|rng: &mut Rng| #[trigger]
        call_ensures(gen_input, (rng,), input) && rng.state() == state
}

/// One step leads from `w` to `z`, and everything it checks holds.
pub open spec fn turns<S: Invariants, G: Fn(&mut Rng) -> S::Input>(
    config: SimConfig,
    service_config: S::Config,
    gen_input: G,
    w: World<S>,
    z: World<S>,
) -> bool {
    let now = w.next_clock();
    &&& z.clock == now
    &&& match w.next_op(config) {
        Op::Crash => {
            &&& came_back(config, service_config, w.node, w.expected, w.synced, w.drawn(), z)
            &&& z.stats == (SimStats { crashes: (w.stats.crashes + 1) as u64, ..w.stats })
        },
        Op::Sync => {
            &&& z.rng == w.drawn()
            &&& saved(w.node, w.expected, z)
            &&& z.stats == (SimStats { syncs: (w.stats.syncs + 1) as u64, ..w.stats })
        },
        Op::Tick => {
            &&& z.rng == w.drawn()
            &&& ticked(config, w.node, w.expected, now, z)
            &&& z.synced == w.synced
            &&& z.stats == (SimStats { ticks: (w.stats.ticks + 1) as u64, ..w.stats })
        },
        Op::Input => {
            &&& exists|input: S::Input| #[trigger]
                drew(gen_input, w.drawn(), input) && submitted(
                    config,
                    w.node,
                    w.expected,
                    now,
                    input,
                    z,
                )
            &&& S::verdict(service_config, z.node.machine().state) is None
            &&& z.synced == w.synced
            &&& z.stats == (SimStats { inputs: (w.stats.inputs + 1) as u64, ..w.stats })
        },
    }
}

/// The node of `z` is `node` with `input` sequenced at time `now`.
#[verifier::opaque]
pub open spec fn submitted<S: Service>(
    config: SimConfig,
    node: SimNode<S>,
    expected: Seq<Entry>,
    now: u64,
    input: S::Input,
    z: World<S>,
) -> bool {
    let time = node.stamp(now);
    &&& input.encodable()
    &&& input.bytes().len() <= MAX_PAYLOAD_LEN
    &&& z.node.moved(
        &node,
        advanced::<S>(node.rules(), node.progress(), FrameKind::Input, input.bytes(), time),
        time,
    )
    &&& node.shelving(FrameKind::Input, input.bytes(), now) == Ok::<Shelf, NodeError>(
        z.node.shelf(),
    )
    &&& z.expected == noted_down(
        config.snapshot_every,
        expected,
        FrameKind::Input,
        now,
        input.bytes(),
    )
}

/// A run so far, world by world.
pub open spec fn run_of<S: Invariants, G: Fn(&mut Rng) -> S::Input>(
    config: SimConfig,
    service_config: S::Config,
    gen_input: G,
    run: Seq<World<S>>,
) -> bool {
    &&& run.len() > 0
    &&& begins(config, service_config, run[0])
    &&& forall|i: int|
        0 <= i < run.len() ==> on_track(config, service_config, (#[trigger] run[i]).node)
    &&& forall|i: int|
        0 <= i < run.len() - 1 ==> turns(
            config,
            service_config,
            gen_input,
            #[trigger] run[i],
            run[i + 1],
        )
}

/// The step that comes next fails, as `what` says.
pub open spec fn trips<S: Invariants, G: Fn(&mut Rng) -> S::Input>(
    config: SimConfig,
    service_config: S::Config,
    gen_input: G,
    w: World<S>,
    what: Seq<char>,
) -> bool {
    match w.next_op(config) {
        Op::Crash => falls(
            config,
            service_config,
            w.node,
            w.expected,
            w.synced,
            w.drawn(),
            what,
        ),
        Op::Sync => false,
        Op::Tick => trips_on_tick(w.node, w.next_clock(), what),
        Op::Input => trips_on_input(
            config,
            service_config,
            gen_input,
            w.node,
            w.expected,
            w.drawn(),
            w.next_clock(),
            what,
        ),
    }
}

/// A tick at time `now` fails.
pub open spec fn trips_on_tick<S: Service>(node: SimNode<S>, now: u64, what: Seq<char>) -> bool {
    node.shelving(FrameKind::Tick, Seq::empty(), now) matches Err(e) && what == "tick failed: "@
        + node_text(e)
}

/// Submitting an input with the bytes `payload` at time `now` fails.
pub open spec fn refuses<S: Service>(
    node: SimNode<S>,
    payload: Seq<u8>,
    now: u64,
    what: Seq<char>,
) -> bool {
    node.shelving(FrameKind::Input, payload, now) matches Err(e) && what == "submit failed: "@
        + node_text(e)
}

/// Submitting the input that is drawn from a generator in state `rng` at time
/// `now` fails, or leads to a state that breaks the service's invariants.
#[verifier::opaque]
pub open spec fn trips_on_input<S: Invariants, G: Fn(&mut Rng) -> S::Input>(
    config: SimConfig,
    service_config: S::Config,
    gen_input: G,
    node: SimNode<S>,
    expected: Seq<Entry>,
    rng: u64,
    now: u64,
    what: Seq<char>,
) -> bool {
    ||| exists|input: S::Input| #[trigger]
        drew(gen_input, rng, input) && refuses(node, input.bytes(), now, what)
    ||| exists|input: S::Input, z: World<S>|
        #![trigger submitted(config, node, expected, now, input, z)]
        drew(gen_input, rng, input) && submitted(config, node, expected, now, input, z)
            && S::verdict(
            service_config,
            z.node.machine().state,
        ) == Some(what)
}

/// The node does not come back from power loss, as `what` says.
#[verifier::opaque]
pub open spec fn falls<S: Invariants>(
    config: SimConfig,
    service_config: S::Config,
    node: SimNode<S>,
    expected: Seq<Entry>,
    synced: nat,
    rng: u64,
    what: Seq<char>,
) -> bool {
    let disk = power_loss(node.disk(), rng, config.torn_tails).0;
    &&& lost_power(node.disk(), disk, config.torn_tails)
    &&& readable(disk)
    &&& stays_down::<S>(config, service_config, disk, expected, synced, what)
}

/// A run that passed every check, the power loss at its end included.
#[verifier::opaque]
pub open spec fn ran_clean<S: Invariants, G: Fn(&mut Rng) -> S::Input>(
    config: SimConfig,
    service_config: S::Config,
    gen_input: G,
    run: Seq<World<S>>,
    last: World<S>,
    stats: SimStats,
) -> bool {
    &&& run_of(config, service_config, gen_input, run)
    &&& run.len() == config.steps + 1
    &&& came_back(
        config,
        service_config,
        run.last().node,
        run.last().expected,
        run.last().synced,
        run.last().rng,
        last,
    )
    &&& stats == (SimStats {
        crashes: (run.last().stats.crashes + 1) as u64,
        ..run.last().stats
    })
}

/// A run that failed: at a step, or at the power loss behind the last one.
#[verifier::opaque]
pub open spec fn ran_into<S: Invariants, G: Fn(&mut Rng) -> S::Input>(
    config: SimConfig,
    service_config: S::Config,
    gen_input: G,
    run: Seq<World<S>>,
    f: SimFailure,
) -> bool {
    &&& run_of(config, service_config, gen_input, run)
    &&& f.seed == config.seed
    &&& if run.len() <= config.steps {
        f.step == run.len() - 1 && trips(
            config,
            service_config,
            gen_input,
            run.last(),
            f.violation.what@,
        )
    } else {
        &&& run.len() == config.steps + 1
        &&& f.step == (if config.steps == 0 {
            0
        } else {
            config.steps - 1
        })
        &&& falls(
            config,
            service_config,
            run.last().node,
            run.last().expected,
            run.last().synced,
            run.last().rng,
            f.violation.what@,
        )
    }
}

/// A run that passed every check, whatever world it ended in.
pub open spec fn ended_clean<S: Invariants, G: Fn(&mut Rng) -> S::Input>(
    config: SimConfig,
    service_config: S::Config,
    gen_input: G,
    run: Seq<World<S>>,
    stats: SimStats,
) -> bool {
    exists|last: World<S>| #[trigger]
        ran_clean(config, service_config, gen_input, run, last, stats)
}

/// What a run came to.
pub open spec fn came_to<S: Invariants, G: Fn(&mut Rng) -> S::Input>(
    config: SimConfig,
    service_config: S::Config,
    gen_input: G,
    run: Seq<World<S>>,
    r: Result<SimStats, SimFailure>,
) -> bool {
    match r {
        Ok(stats) => ended_clean(config, service_config, gen_input, run, stats),
        Err(f) => ran_into(config, service_config, gen_input, run, f),
    }
}

/// Drawing an input takes the generator from one state to the next as `after`
/// says.
pub open spec fn stirred<S: Service>(
    config: SimConfig,
    after: spec_fn(u64) -> u64,
    run: Seq<World<S>>,
) -> bool {
    forall|i: int|
        0 <= i < run.len() - 1 && (#[trigger] run[i]).next_op(config) is Input ==> run[i + 1].rng
            == after(run[i].drawn())
}

/// One step more, with the generator left as `after` says.
proof fn lemma_stirred_on<S: Service>(
    config: SimConfig,
    after: spec_fn(u64) -> u64,
    run: Seq<World<S>>,
    z: World<S>,
)
    requires
        stirred(config, after, run),
        run.len() > 0,
        run.last().next_op(config) is Input ==> z.rng == after(run.last().drawn()),
    ensures
        stirred(config, after, run.push(z)),
{
    let more = run.push(z);
    assert forall|i: int|
        0 <= i < more.len() - 1 && (#[trigger] more[i]).next_op(config) is Input implies more[i
        + 1].rng == after(more[i].drawn()) by {
        if i < run.len() - 1 {
            assert(more[i] == run[i] && more[i + 1] == run[i + 1]);
        }
    }
}

/// A run came to `r`, with a workload that leaves the generator as `after`
/// says.
#[verifier::opaque]
pub open spec fn repeats<S: Invariants, G: Fn(&mut Rng) -> S::Input>(
    config: SimConfig,
    service_config: S::Config,
    gen_input: G,
    after: spec_fn(u64) -> u64,
    r: Result<SimStats, SimFailure>,
) -> bool {
    exists|run: Seq<World<S>>| #[trigger]
        came_to(config, service_config, gen_input, run, r) && stirred(config, after, run)
}

/// What the workload draws depends on the generator's state alone.
pub open spec fn draws_by_state<I: Encode, G: Fn(&mut Rng) -> I>(gen_input: G) -> bool {
    forall|a: &mut Rng, b: &mut Rng, x: I, y: I| #[trigger]
        call_ensures(gen_input, (a,), x) && #[trigger] call_ensures(gen_input, (b,), y)
            && a.state() == b.state() ==> x.bytes() == y.bytes()
}

/// Every input that the workload draws can be submitted.
pub open spec fn feeds<I: Encode, G: Fn(&mut Rng) -> I>(gen_input: G) -> bool {
    &&& forall|rng: &mut Rng| #[trigger] call_requires(gen_input, (rng,))
    &&& forall|rng: &mut Rng, input: I| #[trigger]
        call_ensures(gen_input, (rng,), input) ==> input.encodable() && input.bytes().len()
            <= MAX_PAYLOAD_LEN
}

/// A run in progress.
pub struct Run<S: Service> {
    rng: Rng,
    clock: SimClock,
    node: SimNode<S>,
    expected: Vec<Expected>,
    synced: usize,
    stats: SimStats,
}

impl<S: Invariants> Run<S> where S::Config: Clone {
    /// Where the run stands.
    pub closed spec fn world(&self) -> World<S> {
        World {
            rng: self.rng.state(),
            clock: self.clock.nanos,
            node: self.node,
            expected: entries(self.expected@),
            synced: self.synced as nat,
            stats: self.stats,
        }
    }

    /// How many operations the run is made of so far.
    spec fn total(&self) -> int {
        self.stats.inputs + self.stats.ticks + self.stats.syncs + self.stats.crashes
    }

    /// The node runs as it was set up, on a disk that lost power as often as
    /// was counted.
    spec fn sound(&self, config: SimConfig, service_config: S::Config) -> bool {
        &&& on_track(config, service_config, self.node)
        &&& self.node.disk().epoch == self.stats.crashes
        &&& self.total() <= u32::MAX
    }

    /// Nothing can be held against the run.
    spec fn clean(&self, config: SimConfig, service_config: S::Config) -> bool {
        &&& steady(
            config,
            service_config,
            self.node,
            entries(self.expected@),
            self.synced as nat,
        )
        &&& self.expected@.len() <= self.total()
    }

    /// Opens the node on an empty disk.
    fn start(config: &SimConfig, service_config: &S::Config) -> (r: Result<Self, NodeError>)
        requires
            clones_equal::<S::Config>(),
        ensures
            r is Ok,
            r matches Ok(run) ==> begins(*config, *service_config, run.world()) && run.sound(
                *config,
                *service_config,
            ) && run.total() == 0 && (timeless::<S>(*service_config) ==> run.clean(
                *config,
                *service_config,
            )),
    {
        let storage = SimStorage::new();
        let ghost fresh = storage.view();
        let clock = SimClock { nanos: 1_000_000_000 };
        let given = service_config.clone();
        assert(cloned(*service_config, given));
        let setup = node_config(config);
        let ghost shown = setup;
        proof {
            law_fresh_disk::<S>(*service_config, fresh, sim_dir());
            reveal(opened_on);
        }
        let node: SimNode<S> = Node::open_with(setup, given, clock, storage)?;
        proof {
            let from = choose|from: Option<(u64, Machine)>| #[trigger]
                node.opened(shown, *service_config, fresh, from) && from == anchor::<S>(
                    *service_config,
                    mended(fresh, sim_dir()),
                    sim_dir(),
                );
            assert(node.opened(shown, *service_config, fresh, from));
            assert(blank(fresh) && opened_on(*config, *service_config, fresh, node));
        }
        let expected: Vec<Expected> = Vec::new();
        assert(entries(expected@) =~= Seq::<Entry>::empty());
        let run = Run {
            rng: Rng::new(config.seed),
            clock,
            node,
            expected,
            synced: 0,
            stats: SimStats { inputs: 0, ticks: 0, syncs: 0, crashes: 0 },
        };
        assert(opened_on(*config, *service_config, fresh, run.world().node));
        proof {
            if timeless::<S>(*service_config) {
                lemma_begins_steady::<S>(*config, *service_config, fresh, node);
            }
        }
        Ok(run)
    }

    /// Power loss, recovery and the checklist.
    fn crash(self, step: u32, config: &SimConfig, service_config: &S::Config) -> (r: Result<
        Self,
        SimFailure,
    >)
        requires
            clones_equal::<S::Config>(),
            self.sound(*config, *service_config),
            self.total() < u32::MAX + 1,
        ensures
            config.snapshot_every is None && timeless::<S>(*service_config) && faultless::<S>(
                *service_config,
            ) && self.clean(*config, *service_config) ==> r is Ok && r->Ok_0.clean(
                *config,
                *service_config,
            ),
            match r {
                Ok(z) => {
                    &&& came_back(
                        *config,
                        *service_config,
                        self.world().node,
                        self.world().expected,
                        self.world().synced,
                        self.world().rng,
                        z.world(),
                    )
                    &&& z.world().clock == self.world().clock
                    &&& z.stats == (SimStats {
                        crashes: (self.stats.crashes + 1) as u64,
                        ..self.stats
                    })
                    &&& on_track(*config, *service_config, z.node)
                    &&& z.node.disk().epoch == z.stats.crashes
                    &&& z.total() == self.total() + 1
                },
                Err(f) => {
                    &&& f.seed == config.seed
                    &&& f.step == step
                    &&& falls(
                        *config,
                        *service_config,
                        self.world().node,
                        self.world().expected,
                        self.world().synced,
                        self.world().rng,
                        f.violation.what@,
                    )
                },
            },
    {
        let Run { mut rng, clock, node, mut expected, mut synced, mut stats } = self;
        let ghost before = node;
        let mut disk = node.into_storage();
        proof {
            disk.lemma_crashes();
        }
        disk.crash(&mut rng, config.torn_tails);
        proof {
            law_node_survives_power_loss(before, disk.view(), config.torn_tails);
            assert(lost_power(before.disk(), disk.view(), config.torn_tails));
            reveal(came_back);
            reveal(falls);
            assert forall|k: int| 0 <= k <= expected@.len() implies #[trigger] entries(
                expected@.take(k),
            ) == entries(expected@).take(k) by {
                assert(entries(expected@.take(k)) =~= entries(expected@).take(k));
            }
        }
        let ghost disk_after = disk.view();
        let ghost old_expected = entries(expected@);
        let ghost old_synced = synced as nat;
        let ghost promised = config.snapshot_every is None && timeless::<S>(*service_config)
            && faultless::<S>(*service_config) && self.clean(*config, *service_config);
        proof {
            if promised {
                lemma_opens_again(
                    *config,
                    *service_config,
                    before,
                    old_expected,
                    old_synced,
                    disk_after,
                );
                assert forall|n: SimNode<S>|
                    opened_on(*config, *service_config, disk_after, n) implies #[trigger] node_charge(
                    *service_config,
                    old_expected,
                    old_synced,
                    n,
                ) is None by {
                    lemma_comes_back(
                        *config,
                        *service_config,
                        before,
                        old_expected,
                        old_synced,
                        disk_after,
                        n,
                    );
                }
            }
        }
        let node = recover_and_check::<S>(
            step,
            config,
            service_config,
            disk,
            clock,
            &mut expected,
            &mut synced,
        )?;
        stats.crashes = stats.crashes + 1;
        proof {
            lemma_opened_on(*config, *service_config, disk_after, node);
            if promised {
                lemma_comes_back(
                    *config,
                    *service_config,
                    before,
                    old_expected,
                    old_synced,
                    disk_after,
                    node,
                );
            }
        }
        Ok(Run { rng, clock, node, expected, synced, stats })
    }

    /// An explicit sync of the journal.
    fn sync(&mut self, config: &SimConfig, service_config: &S::Config)
        requires
            old(self).sound(*config, *service_config),
            old(self).total() < u32::MAX,
        ensures
            final(self).sound(*config, *service_config),
            final(self).total() == old(self).total() + 1,
            old(self).clean(*config, *service_config) ==> final(self).clean(
                *config,
                *service_config,
            ),
            ({
                let w = old(self).world();
                let z = final(self).world();
                &&& z.rng == w.rng
                &&& z.clock == w.clock
                &&& saved(w.node, w.expected, z)
                &&& z.stats == (SimStats { syncs: (w.stats.syncs + 1) as u64, ..w.stats })
            }),
    {
        let ghost before = *self;
        let _ = self.node.sync();
        self.synced = self.expected.len();
        self.stats.syncs = self.stats.syncs + 1;
        proof {
            reveal(saved);
            if before.clean(*config, *service_config) {
                assert(before.node.faithful() && before.node.bare()) by {
                    reveal(steady);
                }
                lemma_synced_steady(
                    *config,
                    *service_config,
                    before.node,
                    entries(before.expected@),
                    before.synced as nat,
                    self.node,
                );
            }
        }
    }

    /// A sequenced tick.
    fn tick(&mut self, config: &SimConfig, service_config: &S::Config) -> (r: Result<
        (),
        InvariantViolation,
    >)
        requires
            old(self).sound(*config, *service_config),
            old(self).total() < u32::MAX,
        ensures
            match r {
                Ok(()) => {
                    let w = old(self).world();
                    let z = final(self).world();
                    &&& final(self).sound(*config, *service_config)
                    &&& final(self).total() == old(self).total() + 1
                    &&& z.rng == w.rng
                    &&& z.clock == w.clock
                    &&& ticked(*config, w.node, w.expected, w.clock, z)
                    &&& z.synced == w.synced
                    &&& z.stats == (SimStats { ticks: (w.stats.ticks + 1) as u64, ..w.stats })
                },
                Err(v) => trips_on_tick(
                    old(self).world().node,
                    old(self).world().clock,
                    v.what@,
                ),
            },
            config.snapshot_every is None && 60 <= config.segment_bytes && timeless::<S>(
                *service_config,
            ) && faultless::<S>(*service_config) && old(self).clean(*config, *service_config)
                ==> r is Ok && final(self).clean(*config, *service_config),
    {
        let now: u64 = self.clock.nanos;
        let ghost before = *self;
        let ghost time = self.node.stamp(now);
        let ghost promised = config.snapshot_every is None && 60 <= config.segment_bytes
            && timeless::<S>(*service_config) && faultless::<S>(*service_config) && self.clean(
            *config,
            *service_config,
        );
        proof {
            if promised {
                lemma_goes_smoothly(
                    *config,
                    *service_config,
                    before.node,
                    entries(before.expected@),
                    before.synced as nat,
                    FrameKind::Tick,
                    Seq::empty(),
                    time,
                );
            }
        }
        proof {
            self.node.lemma_journal();
        }
        if let Err(e) = self.node.tick_at(Timestamp(now)) {
            return Err(prefixed("tick failed: ", &e));
        }
        let payload: Vec<u8> = Vec::new();
        assert(payload@ =~= Seq::<u8>::empty());
        note_down(&mut self.expected, config.snapshot_every, FrameKind::Tick, now, payload);
        self.stats.ticks = self.stats.ticks + 1;
        proof {
            reveal(ticked);
            if promised {
                lemma_goes_on_steady(
                    *config,
                    *service_config,
                    before.node,
                    entries(before.expected@),
                    before.synced as nat,
                    FrameKind::Tick,
                    Seq::empty(),
                    now,
                    time,
                    self.node,
                );
            }
        }
        Ok(())
    }

    /// An application input.
    fn input<G: Fn(&mut Rng) -> S::Input>(
        &mut self,
        config: &SimConfig,
        service_config: &S::Config,
        gen_input: &G,
    ) -> (r: Result<(), InvariantViolation>)
        requires
            old(self).sound(*config, *service_config),
            old(self).total() < u32::MAX,
            feeds(*gen_input),
        ensures
            match r {
                Ok(()) => {
                    let w = old(self).world();
                    let z = final(self).world();
                    &&& final(self).sound(*config, *service_config)
                    &&& final(self).total() == old(self).total() + 1
                    &&& z.clock == w.clock
                    &&& exists|input: S::Input| #[trigger]
                        drew(*gen_input, w.rng, input) && submitted(
                            *config,
                            w.node,
                            w.expected,
                            w.clock,
                            input,
                            z,
                        )
                    &&& S::verdict(*service_config, z.node.machine().state) is None
                    &&& z.synced == w.synced
                    &&& z.stats == (SimStats { inputs: (w.stats.inputs + 1) as u64, ..w.stats })
                },
                Err(v) => trips_on_input(
                    *config,
                    *service_config,
                    *gen_input,
                    old(self).world().node,
                    old(self).world().expected,
                    old(self).world().rng,
                    old(self).world().clock,
                    v.what@,
                ),
            },
            conforming::<S, G>(*config, *service_config, *gen_input) && old(self).clean(
                *config,
                *service_config,
            ) ==> r is Ok && final(self).clean(*config, *service_config),
            r is Ok ==> forall|after: spec_fn(u64) -> u64|
                (forall|x: &mut Rng, y: S::Input| #[trigger]
                    call_ensures(*gen_input, (x,), y) ==> final(x).state() == after(x.state()))
                    ==> final(self).world().rng == #[trigger] after(old(self).world().rng),
    {
        let ghost w = self.world();
        proof {
            reveal(trips_on_input);
        }
        let now: u64 = self.clock.nanos;
        let ghost before = *self;
        let ghost time = self.node.stamp(now);
        let input = gen_input(&mut self.rng);
        assert(drew(*gen_input, w.rng, input));
        let ghost promised = conforming::<S, G>(*config, *service_config, *gen_input)
            && before.clean(*config, *service_config);
        proof {
            crate::codec::law_encoding_is_accepted(input);
            if promised {
                lemma_goes_smoothly(
                    *config,
                    *service_config,
                    before.node,
                    entries(before.expected@),
                    before.synced as nat,
                    FrameKind::Input,
                    input.bytes(),
                    time,
                );
            }
        }
        let mut payload: Vec<u8> = Vec::new();
        input.encode(&mut payload);
        assert(payload@ =~= input.bytes());
        proof {
            self.node.lemma_journal();
        }
        if let Err(e) = self.node.submit_at(&input, Timestamp(now)) {
            return Err(prefixed("submit failed: ", &e));
        }
        note_down(&mut self.expected, config.snapshot_every, FrameKind::Input, now, payload);
        self.stats.inputs = self.stats.inputs + 1;
        proof {
            reveal(submitted);
            assert(submitted(*config, w.node, w.expected, now, input, self.world()));
            if promised {
                lemma_goes_on_steady(
                    *config,
                    *service_config,
                    before.node,
                    entries(before.expected@),
                    before.synced as nat,
                    FrameKind::Input,
                    input.bytes(),
                    now,
                    time,
                    self.node,
                );
            }
        }
        self.node.service().check()
    }

    /// One step: time passes, and what happens is drawn.
    fn turn<G: Fn(&mut Rng) -> S::Input>(
        self,
        step: u32,
        config: &SimConfig,
        service_config: &S::Config,
        gen_input: &G,
    ) -> (r: Result<Self, SimFailure>)
        requires
            clones_equal::<S::Config>(),
            feeds(*gen_input),
            self.sound(*config, *service_config),
            self.total() < u32::MAX,
        ensures
            conforming::<S, G>(*config, *service_config, *gen_input) && self.clean(
                *config,
                *service_config,
            ) ==> r is Ok && r->Ok_0.clean(*config, *service_config),
            r is Ok && self.world().next_op(*config) is Input ==> forall|after: spec_fn(u64) -> u64|
                (forall|x: &mut Rng, y: S::Input| #[trigger]
                    call_ensures(*gen_input, (x,), y) ==> final(x).state() == after(x.state()))
                    ==> r->Ok_0.world().rng == #[trigger] after(self.world().drawn()),
            match r {
                Ok(z) => {
                    &&& turns(*config, *service_config, *gen_input, self.world(), z.world())
                    &&& z.sound(*config, *service_config)
                    &&& z.total() == self.total() + 1
                },
                Err(f) => {
                    &&& f.seed == config.seed
                    &&& f.step == step
                    &&& trips(
                        *config,
                        *service_config,
                        *gen_input,
                        self.world(),
                        f.violation.what@,
                    )
                },
            },
    {
        let ghost w = self.world();
        let mut run = self;
        let passed: u64 = run.rng.below(1_000_000_000);
        run.clock.advance(passed);
        let dice: u64 = run.rng.below(1000);
        let crash: u64 = config.crash_per_mille as u64;
        let sync: u64 = crash + config.sync_per_mille as u64;
        let tick: u64 = sync + config.tick_per_mille as u64;
        if dice < crash {
            return run.crash(step, config, service_config);
        }
        if dice < sync {
            run.sync(config, service_config);
            return Ok(run);
        }
        let ghost mid = run.world();
        if dice < tick {
            if let Err(violation) = run.tick(config, service_config) {
                return Err(SimFailure { seed: config.seed, step, violation });
            }
            return Ok(run);
        }
        if let Err(violation) = run.input(config, service_config, gen_input) {
            return Err(SimFailure { seed: config.seed, step, violation });
        }
        proof {
            let input = choose|input: S::Input| #[trigger]
                drew(*gen_input, mid.rng, input) && submitted(
                    *config,
                    mid.node,
                    mid.expected,
                    mid.clock,
                    input,
                    run.world(),
                );
            assert(drew(*gen_input, w.drawn(), input));
        }
        Ok(run)
    }
}

fn run_seed<S: Invariants, G: Fn(&mut Rng) -> S::Input>(
    config: &SimConfig,
    service_config: &S::Config,
    gen_input: &G,
) -> (r: Result<SimStats, SimFailure>) where S::Config: Clone
    requires
        clones_equal::<S::Config>(),
        feeds(*gen_input),
    ensures
        match r {
            Ok(stats) => {
                &&& passes::<S, G>(*config, *service_config, *gen_input, stats)
                &&& stats.inputs + stats.ticks + stats.syncs + stats.crashes == config.steps + 1
            },
            Err(f) => {
                &&& fails::<S, G>(*config, *service_config, *gen_input, f)
                &&& f.seed == config.seed
                &&& f.step < config.steps || (config.steps == 0 && f.step == 0)
            },
        },
        conforming::<S, G>(*config, *service_config, *gen_input) ==> r is Ok,
        forall|after: spec_fn(u64) -> u64|
            (forall|x: &mut Rng, y: S::Input| #[trigger]
                call_ensures(*gen_input, (x,), y) ==> final(x).state() == after(x.state()))
                ==> #[trigger] repeats::<S, G>(*config, *service_config, *gen_input, after, r),
{
    proof {
        reveal(repeats);
    }
    let mut state: Run<S> = match Run::start(config, service_config) {
        Ok(r) => r,
        Err(e) => {
            assert(false);
            return Err(
                SimFailure {
                    seed: config.seed,
                    step: 0,
                    violation: prefixed("initial open failed: ", &e),
                },
            );
        },
    };
    let ghost mut run: Seq<World<S>> = seq![state.world()];
    let mut step: u32 = 0;
    while step < config.steps
        invariant
            step <= config.steps,
            clones_equal::<S::Config>(),
            feeds(*gen_input),
            run_of(*config, *service_config, *gen_input, run),
            run.len() == step + 1,
            run.last() == state.world(),
            state.sound(*config, *service_config),
            state.total() == step,
            forall|after: spec_fn(u64) -> u64|
                (forall|x: &mut Rng, y: S::Input| #[trigger]
                    call_ensures(*gen_input, (x,), y) ==> final(x).state() == after(x.state()))
                    ==> #[trigger] stirred(*config, after, run),
            conforming::<S, G>(*config, *service_config, *gen_input) ==> state.clean(
                *config,
                *service_config,
            ),
        decreases config.steps - step,
    {
        let ghost was = run;
        state = match state.turn(step, config, service_config, gen_input) {
            Ok(next) => next,
            Err(f) => {
                assert(ran_into(*config, *service_config, *gen_input, run, f)) by {
                    reveal(ran_into);
                }
                proof {
                    reveal(repeats);
                }
                assert(came_to(*config, *service_config, *gen_input, run, Err(f)));
                return Err(f);
            },
        };
        proof {
            run = run.push(state.world());
            assert forall|i: int| 0 <= i < run.len() - 1 implies turns(
                *config,
                *service_config,
                *gen_input,
                #[trigger] run[i],
                run[i + 1],
            ) by {
                if i < was.len() - 1 {
                    assert(run[i] == was[i] && run[i + 1] == was[i + 1]);
                }
            }
            assert forall|after: spec_fn(u64) -> u64|
                (forall|x: &mut Rng, y: S::Input| #[trigger]
                    call_ensures(*gen_input, (x,), y) ==> final(x).state() == after(
                        x.state(),
                    )) implies #[trigger] stirred(*config, after, run) by {
                assert(stirred(*config, after, was));
                lemma_stirred_on(*config, after, was, state.world());
            }
        }
        step = step + 1;
    }
    let at: u32 = if config.steps == 0 {
        0
    } else {
        config.steps - 1
    };
    match state.crash(at, config, service_config) {
        Ok(end) => {
            let ghost last = end.world();
            let stats = end.stats;
            assert(ran_clean(*config, *service_config, *gen_input, run, last, stats)) by {
                reveal(ran_clean);
            }
            assert(ended_clean(*config, *service_config, *gen_input, run, stats));
            assert(came_to(*config, *service_config, *gen_input, run, Ok(stats)));
            Ok(stats)
        },
        Err(f) => {
            assert(ran_into(*config, *service_config, *gen_input, run, f)) by {
                reveal(ran_into);
            }
            assert(came_to(*config, *service_config, *gen_input, run, Err(f)));
            Err(f)
        },
    }
}

/// Runs one seeded simulation of `S` under storage faults.
///
/// `gen_input` produces the workload. It derives inputs only from the given
/// [`Rng`]: any other source of chance breaks reproduction by seed.
pub fn simulate<S: Invariants>(
    config: &SimConfig,
    service_config: S::Config,
    gen_input: impl Fn(&mut Rng) -> S::Input,
) -> (r: Result<SimStats, SimFailure>) where S::Config: Clone
    requires
        clones_equal::<S::Config>(),
        feeds(gen_input),
    ensures
        match r {
            Ok(stats) => {
                &&& passes::<S, _>(*config, service_config, gen_input, stats)
                &&& stats.inputs + stats.ticks + stats.syncs + stats.crashes == config.steps + 1
            },
            Err(f) => {
                &&& fails::<S, _>(*config, service_config, gen_input, f)
                &&& f.seed == config.seed
                &&& f.step < config.steps || (config.steps == 0 && f.step == 0)
            },
        },
        conforming::<S, _>(*config, service_config, gen_input) ==> r is Ok,
        forall|after: spec_fn(u64) -> u64|
            (forall|x: &mut Rng, y: S::Input| #[trigger]
                call_ensures(gen_input, (x,), y) ==> final(x).state() == after(x.state()))
                ==> #[trigger] repeats::<S, _>(*config, service_config, gen_input, after, r),
{
    run_seed::<S, _>(config, &service_config, &gen_input)
}

/// Notes what was submitted, and the snapshot mark behind it where a snapshot
/// is due.
fn note_down(
    expected: &mut Vec<Expected>,
    every: Option<u64>,
    kind: FrameKind,
    now: u64,
    payload: Vec<u8>,
)
    ensures
        entries(final(expected)@) == noted_down(
            every,
            entries(old(expected)@),
            kind,
            now,
            payload@,
        ),
{
    let ghost before = expected@;
    let ghost body = payload@;
    expected.push(Expected { kind, time: Timestamp(now), payload });
    let seq: u64 = expected.len() as u64;
    assert(entries(expected@) =~= entries(before).push(Entry { kind, time: now, payload: body }));
    if let Some(n) = every {
        let each: u64 = if n > 1 {
            n
        } else {
            1
        };
        if seq % each == 0 {
            let ghost one = expected@;
            let mut mark: Vec<u8> = Vec::new();
            SeqNo(seq).encode(&mut mark);
            let ghost bytes = mark@;
            assert(bytes =~= SeqNo(seq).bytes());
            expected.push(
                Expected { kind: FrameKind::SnapshotMark, time: Timestamp(now), payload: mark },
            );
            assert(entries(expected@) =~= entries(one).push(
                Entry { kind: FrameKind::SnapshotMark, time: now, payload: bytes },
            ));
        }
    }
}

/// The sums of two runs' tallies.
pub open spec fn summed(a: SimStats, b: SimStats) -> SimStats {
    SimStats {
        inputs: (a.inputs + b.inputs) as u64,
        ticks: (a.ticks + b.ticks) as u64,
        syncs: (a.syncs + b.syncs) as u64,
        crashes: (a.crashes + b.crashes) as u64,
    }
}

/// A clean run of `simulate` may have these tallies.
pub open spec fn passes<S: Invariants, G: Fn(&mut Rng) -> S::Input>(
    config: SimConfig,
    service_config: S::Config,
    gen_input: G,
    stats: SimStats,
) -> bool {
    exists|run: Seq<World<S>>, last: World<S>| #[trigger]
        ran_clean(config, service_config, gen_input, run, last, stats)
}

/// A run of `simulate` may fail with `f`.
pub open spec fn fails<S: Invariants, G: Fn(&mut Rng) -> S::Input>(
    config: SimConfig,
    service_config: S::Config,
    gen_input: G,
    f: SimFailure,
) -> bool {
    exists|run: Seq<World<S>>| #[trigger] ran_into(config, service_config, gen_input, run, f)
}

/// The tallies of clean runs on `seeds`, summed up.
pub open spec fn pass_all<S: Invariants, G: Fn(&mut Rng) -> S::Input>(
    base: SimConfig,
    seeds: Seq<u64>,
    service_config: S::Config,
    gen_input: G,
    totals: SimStats,
) -> bool
    decreases seeds.len(),
{
    if seeds.len() == 0 {
        totals == (SimStats { inputs: 0, ticks: 0, syncs: 0, crashes: 0 })
    } else {
        exists|before: SimStats, stats: SimStats|
            #![trigger summed(before, stats)]
            pass_all::<S, G>(base, seeds.drop_last(), service_config, gen_input, before)
                && passes::<S, G>(
                SimConfig { seed: seeds.last(), ..base },
                service_config,
                gen_input,
                stats,
            ) && totals == summed(before, stats)
    }
}

/// The tallies of clean runs on `seeds`, summed up, with a workload that leaves
/// the generator as `after` says.
#[verifier::opaque]
pub open spec fn repeats_all<S: Invariants, G: Fn(&mut Rng) -> S::Input>(
    base: SimConfig,
    seeds: Seq<u64>,
    service_config: S::Config,
    gen_input: G,
    after: spec_fn(u64) -> u64,
    totals: SimStats,
) -> bool
    decreases seeds.len(),
{
    if seeds.len() == 0 {
        totals == (SimStats { inputs: 0, ticks: 0, syncs: 0, crashes: 0 })
    } else {
        exists|before: SimStats, stats: SimStats|
            #![trigger summed(before, stats)]
            repeats_all::<S, G>(
                base,
                seeds.drop_last(),
                service_config,
                gen_input,
                after,
                before,
            ) && repeats::<S, G>(
                SimConfig { seed: seeds.last(), ..base },
                service_config,
                gen_input,
                after,
                Ok(stats),
            ) && totals == summed(before, stats)
    }
}

/// The runs on all seeds in front of one are clean, and the run on that one
/// fails with `f`.
pub open spec fn fails_first<S: Invariants, G: Fn(&mut Rng) -> S::Input>(
    base: SimConfig,
    seeds: Seq<u64>,
    service_config: S::Config,
    gen_input: G,
    after: spec_fn(u64) -> u64,
    f: SimFailure,
) -> bool {
    exists|i: int, before: SimStats|
        0 <= i < seeds.len() && #[trigger] repeats_all::<S, G>(
            base,
            seeds.take(i),
            service_config,
            gen_input,
            after,
            before,
        ) && repeats::<S, G>(
            SimConfig { seed: seeds[i], ..base },
            service_config,
            gen_input,
            after,
            Err(f),
        )
}

/// One more clean run adds to the tallies.
proof fn lemma_repeats_on<S: Invariants, G: Fn(&mut Rng) -> S::Input>(
    base: SimConfig,
    seeds: Seq<u64>,
    service_config: S::Config,
    gen_input: G,
    after: spec_fn(u64) -> u64,
    before: SimStats,
    stats: SimStats,
)
    requires
        seeds.len() > 0,
        repeats_all::<S, G>(
            base,
            seeds.drop_last(),
            service_config,
            gen_input,
            after,
            before,
        ),
        repeats::<S, G>(
            SimConfig { seed: seeds.last(), ..base },
            service_config,
            gen_input,
            after,
            Ok(stats),
        ),
    ensures
        repeats_all::<S, G>(
            base,
            seeds,
            service_config,
            gen_input,
            after,
            summed(before, stats),
        ),
{
    reveal_with_fuel(repeats_all, 2);
    assert(summed(before, stats) == summed(before, stats));
}

proof fn lemma_many_steps(i: int, n: int, steps: int)
    by (nonlinear_arith)
    requires
        0 <= i < n <= u32::MAX,
        0 <= steps <= u32::MAX,
    ensures
        (i + 1) * (steps + 1) == i * (steps + 1) + steps + 1,
        (i + 1) * (steps + 1) <= u64::MAX,
{
}

/// The failure with the schedule cut behind the failing step, where a run on
/// that schedule fails in the same words; else with the whole schedule.
#[verifier::rlimit(40)]
#[verifier::spinoff_prover]
fn shrunk<S: Invariants, G: Fn(&mut Rng) -> S::Input>(
    config: &SimConfig,
    service_config: &S::Config,
    gen_input: &G,
    failure: SimFailure,
) -> (r: ShrunkFailure) where S::Config: Clone
    requires
        clones_equal::<S::Config>(),
        feeds(*gen_input),
        failure.step < u32::MAX,
        forall|after: spec_fn(u64) -> u64|
            (forall|x: &mut Rng, y: S::Input| #[trigger]
                call_ensures(*gen_input, (x,), y) ==> final(x).state() == after(x.state()))
                ==> #[trigger] repeats::<S, G>(
                *config,
                *service_config,
                *gen_input,
                after,
                Err(failure),
            ),
    ensures
        r.failure == failure,
        r.min_steps == config.steps || (r.min_steps == failure.step + 1 && reproduced::<S, G>(
            SimConfig { steps: r.min_steps, ..*config },
            *service_config,
            *gen_input,
            failure.violation.what@,
        )),
        config.steps > 0 && draws_by_state(*gen_input) ==> forall|after: spec_fn(u64) -> u64|
            (forall|x: &mut Rng, y: S::Input| #[trigger]
                call_ensures(*gen_input, (x,), y) ==> final(x).state() == after(x.state()))
                ==> #[trigger] cut_short::<S, G>(
                *config,
                *service_config,
                *gen_input,
                after,
                r,
            ),
{
    let min_steps: u32 = failure.step + 1;
    let shorter = SimConfig { steps: min_steps, ..*config };
    let rerun = run_seed::<S, G>(&shorter, service_config, gen_input);
    proof {
        if config.steps > 0 && draws_by_state(*gen_input) {
            assert forall|after: spec_fn(u64) -> u64|
                (forall|x: &mut Rng, y: S::Input| #[trigger]
                    call_ensures(*gen_input, (x,), y) ==> final(x).state() == after(x.state())) implies {
                &&& #[trigger] repeats::<S, G>(
                    shorter,
                    *service_config,
                    *gen_input,
                    after,
                    Err(failure),
                )
                &&& failure.step < config.steps
                &&& same_result(Err(failure), rerun)
            } by {
                assert(repeats::<S, G>(*config, *service_config, *gen_input, after, Err(failure)));
                assert(repeats::<S, G>(shorter, *service_config, *gen_input, after, rerun));
                lemma_shrinks::<S, G>(
                    *config,
                    *service_config,
                    *gen_input,
                    after,
                    failure,
                    rerun,
                );
            }
        }
    }
    let confirmed: bool = match rerun {
        Err(again) => {
            let same: bool = same_text(&again.violation.what, &failure.violation.what);
            assert(same ==> fails::<S, G>(shorter, *service_config, *gen_input, again)
                && again.violation.what@ == failure.violation.what@);
            same
        },
        Ok(_) => false,
    };
    let min_steps: u32 = if confirmed {
        min_steps
    } else {
        config.steps
    };
    let r = ShrunkFailure { failure, min_steps };
    proof {
        if config.steps > 0 && draws_by_state(*gen_input) {
            assert forall|after: spec_fn(u64) -> u64|
                (forall|x: &mut Rng, y: S::Input| #[trigger]
                    call_ensures(*gen_input, (x,), y) ==> final(x).state() == after(
                        x.state(),
                    )) implies #[trigger] cut_short::<S, G>(
                *config,
                *service_config,
                *gen_input,
                after,
                r,
            ) by {
                assert(repeats::<S, G>(
                    shorter,
                    *service_config,
                    *gen_input,
                    after,
                    Err(failure),
                ));
                assert(repeats::<S, G>(
                    *config,
                    *service_config,
                    *gen_input,
                    after,
                    Err(failure),
                ));
            }
        }
    }
    r
}

/// A run cut behind the failing step fails as the whole run does.
proof fn lemma_shrinks<S: Invariants, G: Fn(&mut Rng) -> S::Input>(
    config: SimConfig,
    service_config: S::Config,
    gen_input: G,
    after: spec_fn(u64) -> u64,
    f: SimFailure,
    r: Result<SimStats, SimFailure>,
)
    requires
        config.steps > 0,
        f.step < u32::MAX,
        draws_by_state(gen_input),
        repeats::<S, G>(config, service_config, gen_input, after, Err(f)),
        repeats::<S, G>(
            SimConfig { steps: (f.step + 1) as u32, ..config },
            service_config,
            gen_input,
            after,
            r,
        ),
    ensures
        f.step < config.steps,
        same_result(Err(f), r),
        repeats::<S, G>(
            SimConfig { steps: (f.step + 1) as u32, ..config },
            service_config,
            gen_input,
            after,
            Err(f),
        ),
{
    law_cut_schedule_fails_alike::<S, G>(config, service_config, gen_input, after, f, r);
    reveal(repeats);
    reveal(ran_into);
    let cut = SimConfig { steps: (f.step + 1) as u32, ..config };
    let run = choose|run: Seq<World<S>>| #[trigger]
        came_to(cut, service_config, gen_input, run, r) && stirred(cut, after, run);
    assert(came_to(cut, service_config, gen_input, run, Err(f)));
}

/// The schedule ends behind the failing step, and a run of that length fails
/// there in the same words.
pub open spec fn cut_short<S: Invariants, G: Fn(&mut Rng) -> S::Input>(
    config: SimConfig,
    service_config: S::Config,
    gen_input: G,
    after: spec_fn(u64) -> u64,
    r: ShrunkFailure,
) -> bool {
    &&& r.min_steps == r.failure.step + 1
    &&& r.min_steps <= config.steps
    &&& repeats::<S, G>(config, service_config, gen_input, after, Err(r.failure))
    &&& repeats::<S, G>(
        SimConfig { steps: r.min_steps, ..config },
        service_config,
        gen_input,
        after,
        Err(r.failure),
    )
}

fn same_text(a: &String, b: &String) -> (r: bool)
    ensures
        r == (a@ == b@),
{
    *a == *b
}

/// Runs `simulate` on one seed after the other. On the first failure it
/// truncates the schedule behind the failing step, which keeps the run's
/// prefix as it was, and reports the shorter schedule where a second run
/// confirms it.
pub fn vopr<S: Invariants>(
    base: &SimConfig,
    seeds: &[u64],
    service_config: S::Config,
    gen_input: impl Fn(&mut Rng) -> S::Input,
) -> (r: Result<SimStats, ShrunkFailure>) where S::Config: Clone
    requires
        clones_equal::<S::Config>(),
        feeds(gen_input),
        seeds@.len() <= u32::MAX,
    ensures
        match r {
            Ok(totals) => {
                &&& pass_all::<S, _>(*base, seeds@, service_config, gen_input, totals)
                &&& totals.inputs + totals.ticks + totals.syncs + totals.crashes == seeds@.len() * (
                base.steps + 1)
            },
            Err(shrunk) => exists|i: int, before: SimStats|
                #![trigger pass_all::<S, _>(*base, seeds@.take(i), service_config, gen_input, before)]
                {
                    let config = SimConfig { seed: seeds@[i], ..*base };
                    &&& 0 <= i < seeds@.len()
                    &&& pass_all::<S, _>(
                        *base,
                        seeds@.take(i),
                        service_config,
                        gen_input,
                        before,
                    )
                    &&& fails::<S, _>(config, service_config, gen_input, shrunk.failure)
                    &&& shrunk.min_steps == base.steps || (shrunk.min_steps == shrunk.failure.step
                        + 1 && reproduced::<S, _>(
                        SimConfig { steps: shrunk.min_steps, ..config },
                        service_config,
                        gen_input,
                        shrunk.failure.violation.what@,
                    ))
                },
        },
        conforming::<S, _>(*base, service_config, gen_input) ==> r is Ok,
        r is Ok ==> forall|after: spec_fn(u64) -> u64|
            (forall|x: &mut Rng, y: S::Input| #[trigger]
                call_ensures(gen_input, (x,), y) ==> final(x).state() == after(x.state()))
                ==> #[trigger] repeats_all::<S, _>(
                *base,
                seeds@,
                service_config,
                gen_input,
                after,
                r->Ok_0,
            ),
        r is Err ==> forall|after: spec_fn(u64) -> u64|
            (forall|x: &mut Rng, y: S::Input| #[trigger]
                call_ensures(gen_input, (x,), y) ==> final(x).state() == after(x.state()))
                ==> #[trigger] fails_first::<S, _>(
                *base,
                seeds@,
                service_config,
                gen_input,
                after,
                r->Err_0.failure,
            ),
        r is Err && base.steps > 0 && draws_by_state(gen_input) ==> forall|
            after: spec_fn(u64) -> u64,
        |
            (forall|x: &mut Rng, y: S::Input| #[trigger]
                call_ensures(gen_input, (x,), y) ==> final(x).state() == after(x.state()))
                ==> #[trigger] cut_short::<S, _>(
                SimConfig { seed: r->Err_0.failure.seed, ..*base },
                service_config,
                gen_input,
                after,
                r->Err_0,
            ),
{
    let mut totals = SimStats { inputs: 0, ticks: 0, syncs: 0, crashes: 0 };
    let n: usize = seeds.len();
    let mut i: usize = 0;
    assert(seeds@.take(0) =~= Seq::<u64>::empty());
    proof {
        reveal_with_fuel(repeats_all, 1);
    }
    while i < n
        invariant
            i <= n == seeds@.len(),
            n <= u32::MAX,
            clones_equal::<S::Config>(),
            feeds(gen_input),
            pass_all::<S, _>(*base, seeds@.take(i as int), service_config, gen_input, totals),
            totals.inputs + totals.ticks + totals.syncs + totals.crashes == i * (base.steps + 1),
            forall|after: spec_fn(u64) -> u64|
                (forall|x: &mut Rng, y: S::Input| #[trigger]
                    call_ensures(gen_input, (x,), y) ==> final(x).state() == after(x.state()))
                    ==> #[trigger] repeats_all::<S, _>(
                    *base,
                    seeds@.take(i as int),
                    service_config,
                    gen_input,
                    after,
                    totals,
                ),
        decreases n - i,
    {
        let config = SimConfig { seed: seeds[i], ..*base };
        match run_seed::<S, _>(&config, &service_config, &gen_input) {
            Ok(stats) => {
                let ghost before = totals;
                proof {
                    lemma_many_steps(i as int, n as int, base.steps as int);
                }
                totals = SimStats {
                    inputs: totals.inputs + stats.inputs,
                    ticks: totals.ticks + stats.ticks,
                    syncs: totals.syncs + stats.syncs,
                    crashes: totals.crashes + stats.crashes,
                };
                proof {
                    let upto = seeds@.take(i + 1);
                    assert(upto.drop_last() =~= seeds@.take(i as int));
                    assert(upto.last() == seeds@[i as int]);
                    assert(totals == summed(before, stats));
                    assert forall|after: spec_fn(u64) -> u64|
                        (forall|x: &mut Rng, y: S::Input| #[trigger]
                            call_ensures(gen_input, (x,), y) ==> final(x).state() == after(x.state())) implies #[trigger] repeats_all::<S, _>(
                        *base,
                        seeds@.take(i + 1),
                        service_config,
                        gen_input,
                        after,
                        totals,
                    ) by {
                        assert(repeats_all::<S, _>(
                            *base,
                            seeds@.take(i as int),
                            service_config,
                            gen_input,
                            after,
                            before,
                        ));
                        assert(repeats::<S, _>(
                            config,
                            service_config,
                            gen_input,
                            after,
                            Ok(stats),
                        ));
                        lemma_repeats_on::<S, _>(
                            *base,
                            upto,
                            service_config,
                            gen_input,
                            after,
                            before,
                            stats,
                        );
                    }
                }
            },
            Err(failure) => {
                proof {
                    assert forall|after: spec_fn(u64) -> u64|
                        (forall|x: &mut Rng, y: S::Input| #[trigger]
                            call_ensures(gen_input, (x,), y) ==> final(x).state() == after(x.state())) implies #[trigger] fails_first::<S, _>(
                        *base,
                        seeds@,
                        service_config,
                        gen_input,
                        after,
                        failure,
                    ) by {
                        assert(repeats_all::<S, _>(
                            *base,
                            seeds@.take(i as int),
                            service_config,
                            gen_input,
                            after,
                            totals,
                        ));
                        assert(repeats::<S, _>(
                            config,
                            service_config,
                            gen_input,
                            after,
                            Err(failure),
                        ));
                    }
                }
                return Err(shrunk::<S, _>(&config, &service_config, &gen_input, failure));
            },
        }
        i = i + 1;
    }
    assert(seeds@.take(n as int) =~= seeds@);
    Ok(totals)
}

/// A run may fail with these words.
pub open spec fn reproduced<S: Invariants, G: Fn(&mut Rng) -> S::Input>(
    config: SimConfig,
    service_config: S::Config,
    gen_input: G,
    what: Seq<char>,
) -> bool {
    exists|f: SimFailure| #[trigger]
        fails::<S, G>(config, service_config, gen_input, f) && f.violation.what@ == what
}

/// The operation of a step by its number below 1000: crashes come first, then
/// syncs, then ticks, each as often as the configuration gives it per thousand,
/// and what is left are inputs.
pub proof fn law_operations_by_share(config: SimConfig, dice: u64)
    ensures
        op_of(config, dice) is Crash <==> dice < config.crash_per_mille,
        op_of(config, dice) is Sync <==> config.crash_per_mille <= dice < config.crash_per_mille
            + config.sync_per_mille,
        op_of(config, dice) is Tick <==> config.crash_per_mille + config.sync_per_mille <= dice
            < config.crash_per_mille + config.sync_per_mille + config.tick_per_mille,
        op_of(config, dice) is Input <==> config.crash_per_mille + config.sync_per_mille
            + config.tick_per_mille <= dice,
{
}

/// A step takes less than a second of simulated time and begins with two draws:
/// the time, then the operation.
pub proof fn law_step_begins_with_two_draws<S: Service>(w: World<S>, config: SimConfig)
    ensures
        w.next_clock() == w.clock.wrapping_add((draw(w.rng) % 1_000_000_000) as u64),
        w.clock + 1_000_000_000 <= u64::MAX ==> w.clock <= w.next_clock() < w.clock
            + 1_000_000_000,
        w.drawn() == next_state(next_state(w.rng)),
        w.next_op(config) == op_of(config, draw(next_state(w.rng)) % 1000),
{
}

/// What is submitted is noted down behind what was submitted before, at its time,
/// and where a snapshot is due at its seq the mark for that seq behind it.
pub proof fn law_submissions_are_noted_down(
    every: Option<u64>,
    expected: Seq<Entry>,
    kind: FrameKind,
    time: u64,
    payload: Seq<u8>,
)
    requires
        expected.len() + 1 <= u64::MAX,
    ensures
        ({
            let all = noted_down(every, expected, kind, time, payload);
            let n = expected.len() as int;
            let due = snapshot_due(every, (n + 1) as u64);
            &&& all.len() == n + (if due {
                2int
            } else {
                1int
            })
            &&& all.take(n) == expected
            &&& all[n] == Entry { kind, time, payload }
            &&& due ==> all[n + 1].kind == FrameKind::SnapshotMark && all[n + 1].time == time
                && all[n + 1].payload == SeqNo((n + 1) as u64).bytes()
        }),
{
    let all = noted_down(every, expected, kind, time, payload);
    assert(all.take(expected.len() as int) =~= expected);
}

/// Every step of a run is tallied once, as what it was.
pub proof fn law_every_step_is_tallied<S: Invariants, G: Fn(&mut Rng) -> S::Input>(
    config: SimConfig,
    service_config: S::Config,
    gen_input: G,
    run: Seq<World<S>>,
)
    requires
        run_of(config, service_config, gen_input, run),
        run.len() <= u64::MAX,
    ensures
        ({
            let s = run.last().stats;
            s.inputs + s.ticks + s.syncs + s.crashes == run.len() - 1
        }),
        run.len() > 1 ==> {
            let s = run[run.len() - 2].stats;
            let t = run.last().stats;
            match run[run.len() - 2].next_op(config) {
                Op::Crash => t.crashes == s.crashes + 1,
                Op::Sync => t.syncs == s.syncs + 1,
                Op::Tick => t.ticks == s.ticks + 1,
                Op::Input => t.inputs == s.inputs + 1,
            }
        },
    decreases run.len(),
{
    if run.len() > 1 {
        let front = run.drop_last();
        let n = run.len() - 2;
        assert forall|i: int| 0 <= i < front.len() - 1 implies turns(
            config,
            service_config,
            gen_input,
            #[trigger] front[i],
            front[i + 1],
        ) by {
            assert(turns(config, service_config, gen_input, run[i], run[i + 1]));
        }
        assert forall|i: int| 0 <= i < front.len() implies on_track(
            config,
            service_config,
            (#[trigger] front[i]).node,
        ) by {
            assert(on_track(config, service_config, run[i].node));
        }
        law_every_step_is_tallied(config, service_config, gen_input, front);
        assert(turns(config, service_config, gen_input, run[n], run[n + 1]));
        assert(front.last() == run[n]);
        assert(run.last() == run[n + 1]);
    }
}

/// A power loss that the node comes back from costs nothing that was synced, and
/// what is expected from then on is what came through.
pub proof fn law_power_loss_costs_nothing_synced<S: Invariants>(
    config: SimConfig,
    service_config: S::Config,
    node: SimNode<S>,
    expected: Seq<Entry>,
    synced: nat,
    rng: u64,
    z: World<S>,
)
    requires
        came_back(config, service_config, node, expected, synced, rng, z),
    ensures
        synced <= z.node.tip() <= expected.len(),
        z.expected == expected.take(z.node.tip() as int),
        z.synced == z.node.tip(),
        S::verdict(service_config, z.node.machine().state) is None,
{
    reveal(came_back);
    reveal(node_charge);
    crate::sim::judge::law_passing_means_the_replayed_state::<S>(
        service_config,
        expected,
        synced,
        z.node.tip(),
        journal_first(z.node.disk()),
        z.node.frames(),
        z.node.machine().state,
    );
    crate::sim::judge::law_no_fault_means_the_submitted_frames(
        expected,
        synced,
        z.node.tip(),
        journal_first(z.node.disk()),
        z.node.frames(),
    );
}

/// A sync sequences nothing, and from then on everything that was submitted is
/// expected to stay.
pub proof fn law_sync_makes_everything_expected<S: Service>(
    node: SimNode<S>,
    expected: Seq<Entry>,
    z: World<S>,
)
    requires
        saved(node, expected, z),
    ensures
        z.node.tip() == node.tip(),
        z.node.machine() == node.machine(),
        z.node.frames() == node.frames(),
        !z.node.pending(),
        z.synced == expected.len(),
        z.expected == expected,
{
    reveal(saved);
}

/// The tallies of runs add up.
pub proof fn law_tallies_add_up(a: SimStats, b: SimStats)
    requires
        a.inputs + b.inputs <= u64::MAX,
        a.ticks + b.ticks <= u64::MAX,
        a.syncs + b.syncs <= u64::MAX,
        a.crashes + b.crashes <= u64::MAX,
    ensures
        summed(a, b).inputs == a.inputs + b.inputs,
        summed(a, b).ticks == a.ticks + b.ticks,
        summed(a, b).syncs == a.syncs + b.syncs,
        summed(a, b).crashes == a.crashes + b.crashes,
{
}

} // verus!
