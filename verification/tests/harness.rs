//! The simulator itself: a correct service survives heavy fault injection,
//! broken services are caught, and failures reproduce and shrink.

use std::sync::atomic::{AtomicI64, Ordering};

use ticktape::codec::{Bytes, CodecError, Decode, Encode, Parsed};
use ticktape::journal::{FsyncPolicy, Journal, JournalConfig};
use ticktape::node::{Node, NodeConfig, TimeSource};
use ticktape::rng::Rng;
use ticktape::seq::{SeqNo, Timestamp};
use ticktape::service::{Ctx, Service, Step};
use ticktape::sim::demo::{gen_transfer, Bank, Cmd, Evt, ACCOUNTS, OPENING_BALANCE};
use ticktape::sim::judge::{compare, judge, Expected};
use ticktape::sim::run::{simulate, vopr};
use ticktape::sim::{InvariantViolation, Invariants, SimConfig, SimFailure, ShrunkFailure};
use ticktape::sim_storage::SimStorage;
use ticktape::frame::{Frame, FrameKind};
use ticktape::service::OutBuf;
use ticktape::storage::Storage;

fn seeds(n: u64) -> Vec<u64> {
    (0..n).collect()
}

#[test]
fn correct_service_survives_heavy_fault_injection() {
    let base = SimConfig::new(0);
    let stats = vopr::<Bank>(&base, &seeds(60), (), gen_transfer)
        .unwrap_or_else(|failure| panic!("clean service failed: {}", failure.message()));
    assert!(stats.inputs > 5_000, "too few inputs: {stats:?}");
    assert!(stats.crashes > 60, "too few crashes: {stats:?}");
    assert!(stats.syncs > 500, "too few syncs: {stats:?}");
}

#[test]
fn same_seed_reproduces_identical_runs() {
    let config = SimConfig::new(0xDEAD_BEEF);
    let a = simulate::<Bank>(&config, (), gen_transfer);
    let b = simulate::<Bank>(&config, (), gen_transfer);
    assert_eq!(format!("{a:?}"), format!("{b:?}"));
}

static AMBIENT: AtomicI64 = AtomicI64::new(0);

/// `apply` reads a process-global: state is no longer a function of the
/// inputs, so an independent replay diverges.
struct AmbientService {
    tainted: i64,
}

#[derive(Debug)]
struct Poke(u8);

impl Encode for Poke {
    fn encodable(&self) -> bool {
        true
    }
    fn bytes(&self) -> Bytes {
        unreachable!()
    }
    fn encode(&self, out: &mut Vec<u8>) {
        self.0.encode(out);
    }
    fn encoded_len(&self) -> usize {
        1
    }
}

impl Decode for Poke {
    fn parse(_: Bytes) -> Parsed {
        unreachable!()
    }
    fn same(&self, _: &Self) -> bool {
        unreachable!()
    }
    fn law_parse_is_bounded(_: Bytes) {}
    fn law_roundtrip(&self, _: Bytes) {}
    fn law_cut_ends_early(&self, _: Bytes) {}
    fn law_canonical(&self, _: &Self) {}
    fn decode(buf: &mut &[u8]) -> Result<Self, CodecError> {
        Ok(Poke(u8::decode(buf)?))
    }
}

impl Service for AmbientService {
    type Input = Poke;
    type Output = ();
    type Snapshot = i64;
    type Config = ();

    fn config(&self) {
        unreachable!()
    }
    fn state(&self) -> Bytes {
        unreachable!()
    }
    fn genesis_state(_: ()) -> Bytes {
        unreachable!()
    }
    fn step(_: (), _: Bytes, _: u64, _: u64, _: Bytes) -> Step {
        unreachable!()
    }
    fn timer_step(_: (), _: Bytes, _: u64, _: u64, _: u64) -> Step {
        unreachable!()
    }
    fn restored(_: (), _: Bytes) -> Bytes {
        unreachable!()
    }
    fn law_restore_inverts_snapshot(&self) {}

    fn genesis(_: &()) -> Self {
        AmbientService { tainted: 0 }
    }
    fn apply(&mut self, _seq: SeqNo, _input: &Poke, _ctx: &mut Ctx<'_, ()>) {
        self.tainted = AMBIENT.fetch_add(1, Ordering::Relaxed);
    }
    fn on_timer(&mut self, _id: u64, _ctx: &mut Ctx<'_, ()>) {}
    fn snapshot(&self) -> i64 {
        self.tainted
    }
    fn restore(tainted: i64, _: &()) -> Self {
        AmbientService { tainted }
    }
}

impl Invariants for AmbientService {
    fn verdict(_: (), _: Bytes) -> Option<ticktape::sim::Words> {
        unreachable!()
    }
    fn check(&self) -> Result<(), InvariantViolation> {
        Ok(())
    }
}

#[test]
fn catches_ambient_state_nondeterminism() {
    let mut config = SimConfig::new(1);
    config.steps = 200;
    let failure =
        simulate::<AmbientService>(&config, (), |rng: &mut Rng| Poke(rng.below(256) as u8))
            .expect_err("harness must catch the ambient-state bug");
    assert!(
        failure.violation.what.contains("determinism violated"),
        "wrong violation: {}",
        failure.message()
    );
}

/// A bank that allows overdrafts, so a balance goes negative at some point.
struct OverdraftBank {
    balances: Vec<i64>,
}

impl Service for OverdraftBank {
    type Input = Cmd;
    type Output = ();
    type Snapshot = Vec<i64>;
    type Config = ();

    fn config(&self) {
        unreachable!()
    }
    fn state(&self) -> Bytes {
        unreachable!()
    }
    fn genesis_state(_: ()) -> Bytes {
        unreachable!()
    }
    fn step(_: (), _: Bytes, _: u64, _: u64, _: Bytes) -> Step {
        unreachable!()
    }
    fn timer_step(_: (), _: Bytes, _: u64, _: u64, _: u64) -> Step {
        unreachable!()
    }
    fn restored(_: (), _: Bytes) -> Bytes {
        unreachable!()
    }
    fn law_restore_inverts_snapshot(&self) {}

    fn genesis(_: &()) -> Self {
        OverdraftBank {
            balances: vec![OPENING_BALANCE; ACCOUNTS as usize],
        }
    }
    fn apply(&mut self, _seq: SeqNo, cmd: &Cmd, _ctx: &mut Ctx<'_, ()>) {
        let Cmd::Transfer { from, to, amount } = *cmd;
        if from == to {
            return;
        }
        self.balances[from as usize] -= amount as i64;
        self.balances[to as usize] += amount as i64;
    }
    fn on_timer(&mut self, _id: u64, _ctx: &mut Ctx<'_, ()>) {}
    fn snapshot(&self) -> Vec<i64> {
        self.balances.clone()
    }
    fn restore(balances: Vec<i64>, _: &()) -> Self {
        OverdraftBank { balances }
    }
}

impl Invariants for OverdraftBank {
    fn verdict(_: (), _: Bytes) -> Option<ticktape::sim::Words> {
        unreachable!()
    }
    fn check(&self) -> Result<(), InvariantViolation> {
        if let Some(negative) = self.balances.iter().find(|b| **b < 0) {
            return Err(InvariantViolation::new(format!(
                "negative balance: {negative}"
            )));
        }
        Ok(())
    }
}

#[test]
fn catches_invariant_violation_and_shrinks() {
    let base = SimConfig::new(0);
    let shrunk = vopr::<OverdraftBank>(&base, &seeds(20), (), gen_transfer)
        .expect_err("harness must catch the overdraft bug");
    assert!(
        shrunk.failure.violation.what.contains("negative balance"),
        "{}",
        shrunk.message()
    );

    // The shrunk recipe reproduces the identical violation.
    let config = SimConfig {
        seed: shrunk.failure.seed,
        steps: shrunk.min_steps,
        ..base
    };
    let reproduced =
        simulate::<OverdraftBank>(&config, (), gen_transfer).expect_err("must reproduce");
    assert_eq!(reproduced.violation, shrunk.failure.violation);
    assert!(
        shrunk.min_steps <= shrunk.failure.step + 1,
        "shrink did not reduce the schedule: {}",
        shrunk.message()
    );
}

#[test]
fn a_failing_schedule_is_cut_behind_the_failing_step() {
    let base = SimConfig::new(0);
    let shrunk = vopr::<OverdraftBank>(&base, &seeds(20), (), gen_transfer).unwrap_err();
    assert_eq!(shrunk.min_steps, shrunk.failure.step + 1);
    let seed = shrunk.failure.seed;
    let whole = SimConfig { seed, ..base };
    let cut = SimConfig { seed, steps: shrunk.min_steps, ..base };
    for config in [whole, cut] {
        let again = simulate::<OverdraftBank>(&config, (), gen_transfer).unwrap_err();
        assert_eq!(again, shrunk.failure);
    }
    // The runs on the seeds in front of it are clean.
    for seed in 0..seed {
        assert!(simulate::<OverdraftBank>(&SimConfig { seed, ..base }, (), gen_transfer).is_ok());
    }
}

#[derive(Clone, Default)]
struct FixedClock;

impl TimeSource for FixedClock {
    fn reads(&self, _: FixedClock, _: u64) -> bool {
        unreachable!()
    }
    fn now(&mut self) -> Timestamp {
        Timestamp(42)
    }
}

#[test]
fn bit_rot_in_synced_data_is_never_silently_wrong() {
    let mut nc = NodeConfig::new(b"/rot/journal");
    nc.journal.segment_bytes = 256; // several sealed segments
    nc.journal.fsync = FsyncPolicy::EveryFrame;
    let journal = || {
        let mut jc = JournalConfig::new(b"/rot/journal");
        jc.segment_bytes = 256;
        jc.fsync = FsyncPolicy::EveryFrame;
        jc
    };

    let mut node: Node<Bank, FixedClock, SimStorage> =
        Node::open_with(nc, (), FixedClock, SimStorage::new()).unwrap();
    let mut rng = Rng::new(9);
    for _ in 0..60 {
        node.submit(&gen_transfer(&mut rng)).unwrap();
    }
    let mut storage = node.into_storage();

    // Rot one synced byte per segment. The damage, and what recovery cuts
    // off, adds up from one segment to the next.
    for (i, path) in storage.file_paths().into_iter().enumerate() {
        storage.rot_synced_byte(&path, 40 + i * 3, (i % 8) as u32);
        match Journal::open_with(journal(), &mut storage) {
            Err(_) => {}
            Ok(recovered) => {
                for (j, frame) in recovered.frames.iter().enumerate() {
                    assert_eq!(
                        frame.seq.as_u64(),
                        j as u64 + 1,
                        "gap after rot in {path:?}"
                    );
                }
                assert!(recovered.frames.len() <= 60);
            }
        }
    }
}

/// `restore` rebuilds state wrongly, so a recovery that goes through a
/// snapshot diverges from a full replay.
struct OffByOneRestore {
    total: i64,
}

impl Service for OffByOneRestore {
    type Input = Poke;
    type Output = ();
    type Snapshot = i64;
    type Config = ();

    fn config(&self) {
        unreachable!()
    }
    fn state(&self) -> Bytes {
        unreachable!()
    }
    fn genesis_state(_: ()) -> Bytes {
        unreachable!()
    }
    fn step(_: (), _: Bytes, _: u64, _: u64, _: Bytes) -> Step {
        unreachable!()
    }
    fn timer_step(_: (), _: Bytes, _: u64, _: u64, _: u64) -> Step {
        unreachable!()
    }
    fn restored(_: (), _: Bytes) -> Bytes {
        unreachable!()
    }
    fn law_restore_inverts_snapshot(&self) {}

    fn genesis(_: &()) -> Self {
        OffByOneRestore { total: 0 }
    }
    fn apply(&mut self, _seq: SeqNo, input: &Poke, _ctx: &mut Ctx<'_, ()>) {
        self.total += input.0 as i64;
    }
    fn on_timer(&mut self, _id: u64, _ctx: &mut Ctx<'_, ()>) {}
    fn snapshot(&self) -> i64 {
        self.total
    }
    fn restore(total: i64, _: &()) -> Self {
        OffByOneRestore { total: total + 1 }
    }
}

impl Invariants for OffByOneRestore {
    fn verdict(_: (), _: Bytes) -> Option<ticktape::sim::Words> {
        unreachable!()
    }
    fn check(&self) -> Result<(), InvariantViolation> {
        Ok(())
    }
}

#[test]
fn catches_broken_restore_via_snapshot_recovery() {
    let mut config = SimConfig::new(2);
    config.steps = 400;
    config.snapshot_every = Some(10); // recover via snapshots often
    let failure =
        simulate::<OffByOneRestore>(&config, (), |rng: &mut Rng| Poke(rng.below(256) as u8))
            .expect_err("harness must catch the restore bug");
    assert!(
        failure.violation.what.contains("determinism violated"),
        "wrong violation: {}",
        failure.message()
    );

    // Same service with snapshots disabled never touches restore: clean.
    config.snapshot_every = None;
    simulate::<OffByOneRestore>(&config, (), |rng: &mut Rng| Poke(rng.below(256) as u8))
        .expect("full-replay recovery does not exercise the bug");
}

// A correct service recovers through snapshots as well.
#[test]
fn snapshots_do_not_hurt_a_correct_service() {
    let mut base = SimConfig::new(0);
    base.snapshot_every = Some(10);
    let stats = vopr::<Bank>(&base, &seeds(10), (), gen_transfer)
        .unwrap_or_else(|failure| panic!("clean service failed: {}", failure.message()));
    assert_eq!(
        stats.inputs + stats.ticks + stats.syncs + stats.crashes,
        10 * 401
    );
}

#[test]
fn a_run_without_steps_still_loses_power_once() {
    let mut config = SimConfig::new(7);
    config.steps = 0;
    let stats = simulate::<Bank>(&config, (), gen_transfer).unwrap();
    assert_eq!(
        (stats.inputs, stats.ticks, stats.syncs, stats.crashes),
        (0, 0, 0, 1)
    );
}

fn input_frame(seq: u64, payload: Vec<u8>) -> Frame {
    Frame::new(
        SeqNo(seq),
        Timestamp(seq * 10),
        1,
        FrameKind::Input,
        payload,
    )
}

fn input_entry(payload: Vec<u8>) -> Expected {
    Expected {
        kind: FrameKind::Input,
        time: Timestamp(0),
        payload,
    }
}

fn words(r: Result<(), InvariantViolation>) -> String {
    r.expect_err("must be a violation").what
}

#[test]
fn each_broken_promise_is_named() {
    let expected = vec![input_entry(vec![1]), input_entry(vec![2])];
    let first = SeqNo(1);
    let both = vec![input_frame(1, vec![1]), input_frame(2, vec![2])];
    assert_eq!(compare(&expected, 2, SeqNo(2), first, &both), Ok(()));

    let one = vec![input_frame(1, vec![1])];
    assert_eq!(
        words(compare(&expected, 2, SeqNo(1), first, &one)),
        "durability violated: 2 frames were synced but only 1 survived"
    );
    assert_eq!(
        words(compare(&expected, 2, SeqNo(3), first, &both)),
        "phantom frames: 2 submitted, 3 recovered"
    );
    assert_eq!(
        words(compare(&expected, 0, SeqNo(2), first, &one)),
        "node recovered seq 2 but journal holds 1 frames"
    );
    let swapped = vec![input_frame(2, vec![2]), input_frame(1, vec![1])];
    assert_eq!(
        words(compare(&expected, 0, SeqNo(2), first, &swapped)),
        "total order broken: frame 0 has seq 2"
    );
    let altered = vec![input_frame(1, vec![1]), input_frame(2, vec![9])];
    assert_eq!(
        words(compare(&expected, 0, SeqNo(2), first, &altered)),
        "journal frame at seq 2 does not match the submitted input"
    );
}

#[test]
fn a_payload_that_does_not_decode_is_named() {
    let expected = vec![input_entry(vec![1])];
    let frames = vec![input_frame(1, vec![1])];
    let bank = Bank::genesis(&());
    assert_eq!(
        words(judge::<Bank>(
            &(),
            &expected,
            1,
            SeqNo(1),
            SeqNo(1),
            &frames,
            &bank
        )),
        "journaled input no longer decodes at seq 1: unexpected end of input"
    );
}

fn apply_to(bank: &mut Bank, seq: u64, cmd: Cmd) -> Vec<Evt> {
    let mut out = OutBuf::new();
    let mut timers = Vec::new();
    let mut ctx = Ctx::new(SeqNo(seq), Timestamp(0), &mut out, &mut timers);
    bank.apply(SeqNo(seq), &cmd, &mut ctx);
    out.drain()
}

fn transfer(from: u8, to: u8, amount: u32) -> Cmd {
    Cmd::Transfer { from, to, amount }
}

#[test]
fn the_bank_moves_money_and_rejects_the_rest() {
    let mut bank = Bank::genesis(&());
    assert_eq!(
        apply_to(&mut bank, 1, transfer(0, 1, 300)),
        vec![Evt::Transferred {
            from: 0,
            to: 1,
            amount: 300
        }]
    );
    assert_eq!(apply_to(&mut bank, 2, transfer(0, 0, 1)), vec![Evt::Rejected]);
    assert_eq!(apply_to(&mut bank, 3, transfer(0, 9, 1)), vec![Evt::Rejected]);
    assert_eq!(
        apply_to(&mut bank, 4, transfer(0, 1, 701)),
        vec![Evt::Rejected]
    );
    assert_eq!(
        bank.snapshot(),
        vec![700, 1300, 1000, 1000, 1000, 1000, 1000, 1000]
    );
    assert_eq!(bank.check(), Ok(()));
}

#[test]
fn the_bank_finds_fault_with_itself() {
    let short = Bank::restore(vec![1], &());
    assert_eq!(
        words(short.check()),
        "money not conserved: total is 1, expected 8000"
    );
    let owing = Bank::restore(vec![9000, -1000], &());
    assert_eq!(words(owing.check()), "negative balance: -1000");
    let deep = Bank::restore(vec![i64::MIN, i64::MIN], &());
    assert_eq!(
        words(deep.check()),
        "money not conserved: total is -18446744073709551616, expected 8000"
    );
}

#[test]
fn the_first_transfer_of_a_seed_is_fixed() {
    let mut a = Rng::new(9);
    let mut b = Rng::new(9);
    let drawn = gen_transfer(&mut a);
    let from = b.below(8) as u8;
    let to = b.below(8) as u8;
    let amount = b.below(600) as u32;
    assert_eq!(drawn, transfer(from, to, amount));
    assert_eq!(a.next_u64(), b.next_u64());
}

#[test]
fn failures_say_how_to_reproduce_them() {
    let failure = SimFailure {
        seed: 3,
        step: 14,
        violation: InvariantViolation::new("odd".to_string()),
    };
    assert_eq!(failure.message(), "seed 3 failed at step 14: odd");
    let shrunk = ShrunkFailure {
        failure,
        min_steps: 15,
    };
    assert_eq!(
        shrunk.message(),
        "seed 3 failed at step 14: odd (reproduce with seed=3 steps=15)"
    );
}

#[test]
fn a_copied_disk_is_a_disk_of_its_own() {
    let mut node: Node<Bank, FixedClock, SimStorage> =
        Node::open_with(NodeConfig::new(b"/c"), (), FixedClock, SimStorage::new()).unwrap();
    node.submit(&transfer(0, 1, 5)).unwrap();
    let disk = node.into_storage();
    let mut other = disk.copy();
    let path = disk.file_paths()[0].clone();
    assert_eq!(other.read(&path).unwrap(), disk.read(&path).unwrap());
    other.remove(&path).unwrap();
    assert!(disk.read(&path).is_ok());
}
