//! Reproduction by seed: a run follows from its configuration and its
//! workload alone.

use vstd::prelude::*;

use crate::codec::Encode;
use crate::frame::FrameKind;
use crate::message::node_text;
use crate::node::startup::owed;
use crate::node::{advanced, NodeError};
use crate::rng::Rng;
use crate::service::Service;
use crate::sim::judge::Entry;
use crate::sim::run::{
    blank, came_back, came_to, draws_by_state, drew, falls, node_charge, on_track, opened_on,
    ran_clean, ran_into, readable, refuses, repeats, run_of, saved, sim_dir, stays_down, stirred,
    submitted, ticked, trips, trips_on_input, turns, Op, SimNode, World,
};
use crate::sim::{Invariants, SimConfig, SimFailure, SimStats};
use crate::sim_storage::power_loss;
use crate::storage::DiskModel;

verus! {

/// Two worlds that nothing in a run tells apart.
pub open spec fn alike<S: Service>(w: World<S>, z: World<S>) -> bool {
    &&& w.rng == z.rng
    &&& w.clock == z.clock
    &&& w.expected == z.expected
    &&& w.synced == z.synced
    &&& w.stats == z.stats
    &&& stand_alike(w.node, z.node)
}

/// Two nodes that stand at the same point and have written the same.
pub open spec fn stand_alike<S: Service>(a: SimNode<S>, b: SimNode<S>) -> bool {
    &&& a.shelf() == b.shelf()
    &&& a.machine() == b.machine()
    &&& a.tip() == b.tip()
    &&& a.last_time() == b.last_time()
}

/// The same set-up, for a run of another length.
pub open spec fn same_but_steps(c: SimConfig, d: SimConfig) -> bool {
    c == (SimConfig { steps: c.steps, ..d })
}

/// Opening on the same disk leads to the same node.
proof fn lemma_opened_alike<S: Service>(
    c: SimConfig,
    d: SimConfig,
    service_config: S::Config,
    disk: DiskModel,
    a: SimNode<S>,
    b: SimNode<S>,
)
    requires
        opened_on(c, service_config, disk, a),
        opened_on(d, service_config, disk, b),
    ensures
        stand_alike(a, b),
        a.frames() == b.frames(),
{
    reveal(opened_on);
}

/// Opening on the same disk fails for the same reason, or not at all.
proof fn lemma_owed_once<S: Service>(
    service_config: S::Config,
    disk: DiskModel,
    a: Result<(), NodeError>,
    b: Result<(), NodeError>,
)
    requires
        readable(disk),
        owed::<S>(service_config, disk, sim_dir(), a),
        owed::<S>(service_config, disk, sim_dir(), b),
    ensures
        a is Ok <==> b is Ok,
        a is Err ==> node_text(a->Err_0) == node_text(b->Err_0),
{
    reveal(owed);
}

/// The checklist says the same of nodes that stand alike.
proof fn lemma_charged_alike<S: Invariants>(
    service_config: S::Config,
    expected: Seq<Entry>,
    synced: nat,
    a: SimNode<S>,
    b: SimNode<S>,
)
    requires
        stand_alike(a, b),
        a.frames() == b.frames(),
    ensures
        node_charge(service_config, expected, synced, a) == node_charge(
            service_config,
            expected,
            synced,
            b,
        ),
{
    reveal(node_charge);
}

/// A node that does not come back says why in the same words each time.
proof fn lemma_down_alike<S: Invariants>(
    c: SimConfig,
    d: SimConfig,
    service_config: S::Config,
    disk: DiskModel,
    expected: Seq<Entry>,
    synced: nat,
    what: Seq<char>,
    again: Seq<char>,
)
    requires
        readable(disk),
        stays_down::<S>(c, service_config, disk, expected, synced, what),
        stays_down::<S>(d, service_config, disk, expected, synced, again),
    ensures
        what == again,
{
    reveal(stays_down);
    if exists|e: NodeError|
        owed::<S>(service_config, disk, sim_dir(), Err(e)) && what
            == "recovery failed after crash: "@ + #[trigger] node_text(e) {
        let e = choose|e: NodeError|
            owed::<S>(service_config, disk, sim_dir(), Err(e)) && what
                == "recovery failed after crash: "@ + #[trigger] node_text(e);
        lemma_down_for::<S>(d, service_config, disk, expected, synced, again, e);
    } else {
        let a = choose|node: SimNode<S>|
            opened_on(c, service_config, disk, node) && #[trigger] node_charge(
                service_config,
                expected,
                synced,
                node,
            ) == Some(what);
        lemma_up_or_down(c, d, service_config, disk, expected, synced, again, a);
    }
}

/// A node that could not be opened for the reason `e` is down for it.
proof fn lemma_down_for<S: Invariants>(
    config: SimConfig,
    service_config: S::Config,
    disk: DiskModel,
    expected: Seq<Entry>,
    synced: nat,
    what: Seq<char>,
    e: NodeError,
)
    requires
        readable(disk),
        owed::<S>(service_config, disk, sim_dir(), Err(e)),
        stays_down::<S>(config, service_config, disk, expected, synced, what),
    ensures
        what == "recovery failed after crash: "@ + node_text(e),
{
    reveal(stays_down);
    if exists|x: NodeError|
        owed::<S>(service_config, disk, sim_dir(), Err(x)) && what
            == "recovery failed after crash: "@ + #[trigger] node_text(x) {
        let x = choose|x: NodeError|
            owed::<S>(service_config, disk, sim_dir(), Err(x)) && what
                == "recovery failed after crash: "@ + #[trigger] node_text(x);
        lemma_owed_once::<S>(service_config, disk, Err(e), Err(x));
    } else {
        let a = choose|node: SimNode<S>|
            opened_on(config, service_config, disk, node) && #[trigger] node_charge(
                service_config,
                expected,
                synced,
                node,
            ) == Some(what);
        assert(owed::<S>(service_config, disk, sim_dir(), Ok(()))) by {
            reveal(opened_on);
            assert(opened_on(config, service_config, disk, a));
        }
        lemma_owed_once::<S>(service_config, disk, Err(e), Ok(()));
    }
}

/// Where a node can be opened, what keeps it down is the checklist.
proof fn lemma_up_or_down<S: Invariants>(
    c: SimConfig,
    d: SimConfig,
    service_config: S::Config,
    disk: DiskModel,
    expected: Seq<Entry>,
    synced: nat,
    what: Seq<char>,
    node: SimNode<S>,
)
    requires
        readable(disk),
        opened_on(c, service_config, disk, node),
        stays_down::<S>(d, service_config, disk, expected, synced, what),
    ensures
        node_charge(service_config, expected, synced, node) == Some(what),
{
    reveal(stays_down);
    assert(owed::<S>(service_config, disk, sim_dir(), Ok(()))) by {
        reveal(opened_on);
    }
    if exists|x: NodeError|
        owed::<S>(service_config, disk, sim_dir(), Err(x)) && what
            == "recovery failed after crash: "@ + #[trigger] node_text(x) {
        let x = choose|x: NodeError|
            owed::<S>(service_config, disk, sim_dir(), Err(x)) && what
                == "recovery failed after crash: "@ + #[trigger] node_text(x);
        lemma_owed_once::<S>(service_config, disk, Ok(()), Err(x));
    } else {
        let b = choose|b: SimNode<S>|
            opened_on(d, service_config, disk, b) && #[trigger] node_charge(
                service_config,
                expected,
                synced,
                b,
            ) == Some(what);
        lemma_opened_alike(c, d, service_config, disk, node, b);
        lemma_charged_alike(service_config, expected, synced, node, b);
    }
}

/// Power loss at the same point leads to the same world, or to the same fault.
proof fn lemma_power_loss_alike<S: Invariants>(
    c: SimConfig,
    d: SimConfig,
    service_config: S::Config,
    w: World<S>,
    v: World<S>,
    rng: u64,
)
    requires
        same_but_steps(c, d),
        stand_alike(w.node, v.node),
        w.expected == v.expected,
        w.synced == v.synced,
    ensures
        forall|x: World<S>, y: World<S>|
            #[trigger] came_back(c, service_config, w.node, w.expected, w.synced, rng, x)
                && #[trigger] came_back(d, service_config, v.node, v.expected, v.synced, rng, y)
                ==> stand_alike(x.node, y.node) && x.rng == y.rng && x.expected == y.expected
                && x.synced == y.synced,
        forall|x: World<S>, what: Seq<char>|
            !(#[trigger] came_back(c, service_config, w.node, w.expected, w.synced, rng, x)
                && #[trigger] falls(
                d,
                service_config,
                v.node,
                v.expected,
                v.synced,
                rng,
                what,
            )),
        forall|x: World<S>, what: Seq<char>|
            !(#[trigger] came_back(d, service_config, v.node, v.expected, v.synced, rng, x)
                && #[trigger] falls(
                c,
                service_config,
                w.node,
                w.expected,
                w.synced,
                rng,
                what,
            )),
        forall|what: Seq<char>, again: Seq<char>|
            #[trigger] falls(c, service_config, w.node, w.expected, w.synced, rng, what)
                && #[trigger] falls(
                d,
                service_config,
                v.node,
                v.expected,
                v.synced,
                rng,
                again,
            ) ==> what == again,
{
    reveal(came_back);
    reveal(falls);
    assert(w.node.shelf().disk == v.node.shelf().disk);
    let disk = power_loss(w.node.disk(), rng, c.torn_tails).0;
    assert forall|x: World<S>, y: World<S>|
        #[trigger] came_back(c, service_config, w.node, w.expected, w.synced, rng, x)
            && #[trigger] came_back(
            d,
            service_config,
            v.node,
            v.expected,
            v.synced,
            rng,
            y,
        ) implies stand_alike(x.node, y.node) && x.rng == y.rng && x.expected == y.expected
        && x.synced == y.synced by {
        lemma_opened_alike(c, d, service_config, disk, x.node, y.node);
    }
    assert forall|x: World<S>, what: Seq<char>|
        !(#[trigger] came_back(c, service_config, w.node, w.expected, w.synced, rng, x)
            && #[trigger] falls(d, service_config, v.node, v.expected, v.synced, rng, what)) by {
        if came_back(c, service_config, w.node, w.expected, w.synced, rng, x) && falls(
            d,
            service_config,
            v.node,
            v.expected,
            v.synced,
            rng,
            what,
        ) {
            lemma_up_or_down(
                c,
                d,
                service_config,
                disk,
                w.expected,
                w.synced,
                what,
                x.node,
            );
        }
    }
    assert forall|x: World<S>, what: Seq<char>|
        !(#[trigger] came_back(d, service_config, v.node, v.expected, v.synced, rng, x)
            && #[trigger] falls(c, service_config, w.node, w.expected, w.synced, rng, what)) by {
        if came_back(d, service_config, v.node, v.expected, v.synced, rng, x) && falls(
            c,
            service_config,
            w.node,
            w.expected,
            w.synced,
            rng,
            what,
        ) {
            lemma_up_or_down(
                d,
                c,
                service_config,
                disk,
                w.expected,
                w.synced,
                what,
                x.node,
            );
        }
    }
    assert forall|what: Seq<char>, again: Seq<char>|
        #[trigger] falls(c, service_config, w.node, w.expected, w.synced, rng, what)
            && #[trigger] falls(
            d,
            service_config,
            v.node,
            v.expected,
            v.synced,
            rng,
            again,
        ) implies what == again by {
        lemma_down_alike::<S>(
            c,
            d,
            service_config,
            disk,
            w.expected,
            w.synced,
            what,
            again,
        );
    }
}

/// From the same generator state, the workload draws the same bytes.
proof fn lemma_drew_alike<I: Encode, G: Fn(&mut Rng) -> I>(gen_input: G, state: u64, x: I, y: I)
    requires
        draws_by_state(gen_input),
        drew(gen_input, state, x),
        drew(gen_input, state, y),
    ensures
        x.bytes() == y.bytes(),
{
    let a = choose|a: &mut Rng| #[trigger]
        call_ensures(gen_input, (a,), x) && a.state() == state;
    let b = choose|b: &mut Rng| #[trigger]
        call_ensures(gen_input, (b,), y) && b.state() == state;
    assert(call_ensures(gen_input, (a,), x) && call_ensures(gen_input, (b,), y));
}

/// One step leads from worlds that are alike to worlds that are alike.
#[verifier::rlimit(40)]
proof fn lemma_turns_alike<S: Invariants, G: Fn(&mut Rng) -> S::Input>(
    c: SimConfig,
    d: SimConfig,
    service_config: S::Config,
    gen_input: G,
    w: World<S>,
    x: World<S>,
    v: World<S>,
    y: World<S>,
)
    requires
        same_but_steps(c, d),
        draws_by_state(gen_input),
        on_track(c, service_config, w.node),
        on_track(d, service_config, v.node),
        alike(w, v),
        turns(c, service_config, gen_input, w, x),
        turns(d, service_config, gen_input, v, y),
        w.next_op(c) is Input ==> x.rng == y.rng,
    ensures
        alike(x, y),
{
    let now = w.next_clock();
    assert(w.node.progress() == v.node.progress());
    assert(w.node.stamp(now) == v.node.stamp(now));
    match w.next_op(c) {
        Op::Crash => {
            lemma_power_loss_alike(c, d, service_config, w, v, w.drawn());
        },
        Op::Sync => {
            reveal(saved);
            assert(w.node.shelf().disk == v.node.shelf().disk);
            assert(w.node.shelf().pending == v.node.shelf().pending);
        },
        Op::Tick => {
            reveal(ticked);
        },
        Op::Input => {
            let a = choose|a: S::Input| #[trigger]
                drew(gen_input, w.drawn(), a) && submitted(c, w.node, w.expected, now, a, x);
            let b = choose|b: S::Input| #[trigger]
                drew(gen_input, v.drawn(), b) && submitted(d, v.node, v.expected, now, b, y);
            lemma_drew_alike(gen_input, w.drawn(), a, b);
            reveal(submitted);
        },
    }
}

/// What can be held against an input with the bytes `payload` at time `now`.
spec fn input_fault<S: Invariants>(
    service_config: S::Config,
    node: SimNode<S>,
    payload: Seq<u8>,
    now: u64,
) -> Option<Seq<char>> {
    match node.shelving(FrameKind::Input, payload, now) {
        Err(e) => Some("submit failed: "@ + node_text(e)),
        Ok(_) => S::verdict(
            service_config,
            advanced::<S>(
                node.rules(),
                node.progress(),
                FrameKind::Input,
                payload,
                node.stamp(now),
            ).machine.state,
        ),
    }
}

/// A step that fails on an input fails for what can be held against it.
proof fn lemma_input_trips<S: Invariants, G: Fn(&mut Rng) -> S::Input>(
    config: SimConfig,
    service_config: S::Config,
    gen_input: G,
    w: World<S>,
    what: Seq<char>,
    input: S::Input,
)
    requires
        draws_by_state(gen_input),
        w.next_op(config) is Input,
        trips(config, service_config, gen_input, w, what),
        drew(gen_input, w.drawn(), input),
    ensures
        input_fault(service_config, w.node, input.bytes(), w.next_clock()) == Some(what),
{
    let now = w.next_clock();
    reveal(trips_on_input);
    if exists|a: S::Input| #[trigger]
        drew(gen_input, w.drawn(), a) && refuses(w.node, a.bytes(), now, what) {
        let a = choose|a: S::Input| #[trigger]
            drew(gen_input, w.drawn(), a) && refuses(w.node, a.bytes(), now, what);
        lemma_drew_alike(gen_input, w.drawn(), a, input);
    } else {
        let (a, z) = choose|a: S::Input, z: World<S>|
            #![trigger submitted(config, w.node, w.expected, now, a, z)]
            drew(gen_input, w.drawn(), a) && submitted(config, w.node, w.expected, now, a, z)
                && S::verdict(service_config, z.node.machine().state) == Some(what);
        lemma_drew_alike(gen_input, w.drawn(), a, input);
        reveal(submitted);
    }
}

/// A step that fails draws an input to fail on.
proof fn lemma_input_drawn<S: Invariants, G: Fn(&mut Rng) -> S::Input>(
    config: SimConfig,
    service_config: S::Config,
    gen_input: G,
    w: World<S>,
    what: Seq<char>,
) -> (input: S::Input)
    requires
        w.next_op(config) is Input,
        trips(config, service_config, gen_input, w, what),
    ensures
        drew(gen_input, w.drawn(), input),
{
    let now = w.next_clock();
    reveal(trips_on_input);
    if exists|a: S::Input| #[trigger]
        drew(gen_input, w.drawn(), a) && refuses(w.node, a.bytes(), now, what) {
        choose|a: S::Input| #[trigger]
            drew(gen_input, w.drawn(), a) && refuses(w.node, a.bytes(), now, what)
    } else {
        let (a, z) = choose|a: S::Input, z: World<S>|
            #![trigger submitted(config, w.node, w.expected, now, a, z)]
            drew(gen_input, w.drawn(), a) && submitted(config, w.node, w.expected, now, a, z)
                && S::verdict(service_config, z.node.machine().state) == Some(what);
        a
    }
}

/// A step that fails from one world fails from a world that is like it, in the
/// same words.
#[verifier::rlimit(40)]
proof fn lemma_trips_alike<S: Invariants, G: Fn(&mut Rng) -> S::Input>(
    c: SimConfig,
    d: SimConfig,
    service_config: S::Config,
    gen_input: G,
    w: World<S>,
    v: World<S>,
    what: Seq<char>,
)
    requires
        same_but_steps(c, d),
        draws_by_state(gen_input),
        on_track(c, service_config, w.node),
        on_track(d, service_config, v.node),
        alike(w, v),
        trips(c, service_config, gen_input, w, what),
    ensures
        forall|y: World<S>| !#[trigger] turns(d, service_config, gen_input, v, y),
        forall|again: Seq<char>| #[trigger]
            trips(d, service_config, gen_input, v, again) ==> again == what,
{
    let now = w.next_clock();
    assert(w.node.progress() == v.node.progress());
    assert(w.node.stamp(now) == v.node.stamp(now));
    match w.next_op(c) {
        Op::Crash => {
            lemma_power_loss_alike(c, d, service_config, w, v, w.drawn());
        },
        Op::Sync => {},
        Op::Tick => {
            reveal(ticked);
        },
        Op::Input => {
            assert forall|y: World<S>| !#[trigger] turns(d, service_config, gen_input, v, y) by {
                if turns(d, service_config, gen_input, v, y) {
                    let b = choose|b: S::Input| #[trigger]
                        drew(gen_input, v.drawn(), b) && submitted(
                            d,
                            v.node,
                            v.expected,
                            now,
                            b,
                            y,
                        );
                    lemma_input_trips(c, service_config, gen_input, w, what, b);
                    reveal(submitted);
                }
            }
            assert forall|again: Seq<char>| #[trigger]
                trips(d, service_config, gen_input, v, again) implies again == what by {
                let b = lemma_input_drawn(d, service_config, gen_input, v, again);
                lemma_input_trips(c, service_config, gen_input, w, what, b);
                lemma_input_trips(d, service_config, gen_input, v, again, b);
            }
        },
    }
}

/// Two runs of one set-up are alike, world by world, as far as both go.
proof fn lemma_runs_alike<S: Invariants, G: Fn(&mut Rng) -> S::Input>(
    c: SimConfig,
    d: SimConfig,
    service_config: S::Config,
    gen_input: G,
    after: spec_fn(u64) -> u64,
    run: Seq<World<S>>,
    other: Seq<World<S>>,
    i: int,
)
    requires
        same_but_steps(c, d),
        draws_by_state(gen_input),
        run_of(c, service_config, gen_input, run),
        run_of(d, service_config, gen_input, other),
        stirred(c, after, run),
        stirred(d, after, other),
        0 <= i < run.len(),
        i < other.len(),
    ensures
        alike(run[i], other[i]),
        on_track(c, service_config, run[i].node),
        on_track(d, service_config, other[i].node),
    decreases i,
{
    if i == 0 {
        let a = choose|a: DiskModel|
            blank(a) && #[trigger] opened_on(c, service_config, a, run[0].node);
        let b = choose|b: DiskModel|
            blank(b) && #[trigger] opened_on(d, service_config, b, other[0].node);
        assert(a == b);
        lemma_opened_alike(c, d, service_config, a, run[0].node, other[0].node);
    } else {
        lemma_runs_alike(c, d, service_config, gen_input, after, run, other, i - 1);
        assert(turns(c, service_config, gen_input, run[i - 1], run[i - 1 + 1]));
        assert(turns(d, service_config, gen_input, other[i - 1], other[i - 1 + 1]));
        lemma_turns_alike(
            c,
            d,
            service_config,
            gen_input,
            run[i - 1],
            run[i],
            other[i - 1],
            other[i],
        );
    }
}

/// Two results that say the same.
pub open spec fn same_result(
    a: Result<SimStats, SimFailure>,
    b: Result<SimStats, SimFailure>,
) -> bool {
    match a {
        Ok(stats) => b == Ok::<SimStats, SimFailure>(stats),
        Err(f) => b matches Err(g) && f.seed == g.seed && f.step == g.step && f.violation.what@
            == g.violation.what@,
    }
}

/// Where a run fails at a step, every run of the set-up that gets there fails
/// there, in the same words.
proof fn lemma_fails_alike<S: Invariants, G: Fn(&mut Rng) -> S::Input>(
    c: SimConfig,
    d: SimConfig,
    service_config: S::Config,
    gen_input: G,
    after: spec_fn(u64) -> u64,
    run: Seq<World<S>>,
    other: Seq<World<S>>,
    f: SimFailure,
    r: Result<SimStats, SimFailure>,
)
    requires
        same_but_steps(c, d),
        draws_by_state(gen_input),
        ran_into(c, service_config, gen_input, run, f),
        came_to(d, service_config, gen_input, other, r),
        stirred(c, after, run),
        stirred(d, after, other),
        run.len() <= c.steps,
        run.len() <= d.steps,
    ensures
        same_result(Err(f), r),
{
    reveal(ran_into);
    if r is Ok {
        reveal(ran_clean);
    }
    let i = run.len() - 1;
    if other.len() > run.len() {
        lemma_runs_alike(c, d, service_config, gen_input, after, run, other, i);
        lemma_trips_alike(
            c,
            d,
            service_config,
            gen_input,
            run[i],
            other[i],
            f.violation.what@,
        );
        assert(turns(d, service_config, gen_input, other[i], other[i + 1]));
    } else {
        let g = r->Err_0;
        let j = other.len() - 1;
        lemma_runs_alike(c, d, service_config, gen_input, after, run, other, j);
        lemma_runs_alike(d, c, service_config, gen_input, after, other, run, j);
        lemma_trips_alike(
            d,
            c,
            service_config,
            gen_input,
            other[j],
            run[j],
            g.violation.what@,
        );
        if j < i {
            assert(turns(c, service_config, gen_input, run[j], run[j + 1]));
        }
    }
}

/// Reproduction by seed: two runs of the same set-up and workload come to the
/// same result, where what the workload draws, and what state it leaves the
/// generator in, depends on the generator alone.
pub proof fn law_same_seed_same_result<S: Invariants, G: Fn(&mut Rng) -> S::Input>(
    config: SimConfig,
    service_config: S::Config,
    gen_input: G,
    after: spec_fn(u64) -> u64,
    a: Result<SimStats, SimFailure>,
    b: Result<SimStats, SimFailure>,
)
    requires
        draws_by_state(gen_input),
        repeats::<S, G>(config, service_config, gen_input, after, a),
        repeats::<S, G>(config, service_config, gen_input, after, b),
    ensures
        same_result(a, b),
{
    reveal(repeats);
    let run = choose|run: Seq<World<S>>| #[trigger]
        came_to(config, service_config, gen_input, run, a) && stirred(config, after, run);
    let other = choose|run: Seq<World<S>>| #[trigger]
        came_to(config, service_config, gen_input, run, b) && stirred(config, after, run);
    reveal(ran_into);
    if a is Ok || b is Ok {
        reveal(ran_clean);
    }
    if a is Err && run.len() <= config.steps {
        lemma_fails_alike(
            config,
            config,
            service_config,
            gen_input,
            after,
            run,
            other,
            a->Err_0,
            b,
        );
    } else if b is Err && other.len() <= config.steps {
        lemma_fails_alike(
            config,
            config,
            service_config,
            gen_input,
            after,
            other,
            run,
            b->Err_0,
            a,
        );
    } else {
        let i = config.steps as int;
        lemma_runs_alike(
            config,
            config,
            service_config,
            gen_input,
            after,
            run,
            other,
            i,
        );
        lemma_power_loss_alike(
            config,
            config,
            service_config,
            run[i],
            other[i],
            run[i].rng,
        );
    }
}

/// The schedule of a failing run can be cut behind the failing step: a run of
/// that length fails at the same step, in the same words.
pub proof fn law_cut_schedule_fails_alike<S: Invariants, G: Fn(&mut Rng) -> S::Input>(
    config: SimConfig,
    service_config: S::Config,
    gen_input: G,
    after: spec_fn(u64) -> u64,
    f: SimFailure,
    r: Result<SimStats, SimFailure>,
)
    requires
        config.steps > 0,
        draws_by_state(gen_input),
        repeats::<S, G>(config, service_config, gen_input, after, Err(f)),
        f.step < config.steps ==> repeats::<S, G>(
            SimConfig { steps: (f.step + 1) as u32, ..config },
            service_config,
            gen_input,
            after,
            r,
        ),
    ensures
        f.step < config.steps,
        same_result(Err(f), r),
{
    reveal(repeats);
    let run = choose|run: Seq<World<S>>| #[trigger]
        came_to(config, service_config, gen_input, run, Err(f)) && stirred(config, after, run);
    let shorter = SimConfig { steps: (f.step + 1) as u32, ..config };
    reveal(ran_into);
    if run.len() <= config.steps {
        let other = choose|run: Seq<World<S>>| #[trigger]
            came_to(shorter, service_config, gen_input, run, r) && stirred(shorter, after, run);
        lemma_fails_alike(
            config,
            shorter,
            service_config,
            gen_input,
            after,
            run,
            other,
            f,
            r,
        );
    } else {
        assert(shorter == config);
        law_same_seed_same_result::<S, G>(
            config,
            service_config,
            gen_input,
            after,
            Err(f),
            r,
        );
    }
}

} // verus!
