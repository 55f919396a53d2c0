//! Deterministic timers: the wheel, and firing through the node by way of
//! journaled frames.

use ticktape::codec::{Bytes, CodecError, Decode, Encode, Parsed};
use ticktape::frame::FrameKind;
use ticktape::journal::FsyncPolicy;
use ticktape::node::{ManualClock, Node, NodeConfig};
use ticktape::seq::{SeqNo, Timestamp};
use ticktape::service::{Ctx, Service, Step};
use ticktape::sim_storage::SimStorage;
use ticktape::timer::TimerWheel;

#[test]
fn fires_in_deadline_then_setorder_then_id_order() {
    let mut w = TimerWheel::new();
    w.set(7, Timestamp(100), SeqNo(1));
    w.set(3, Timestamp(50), SeqNo(2));
    w.set(9, Timestamp(50), SeqNo(2)); // same deadline+seq, higher id last
    // Nothing due before 50.
    assert_eq!(w.pop_due(Timestamp(49)), None);
    // At 50: the two deadline-50 timers fire, id-ordered (3 before 9).
    assert_eq!(w.pop_due(Timestamp(50)), Some(3));
    assert_eq!(w.pop_due(Timestamp(50)), Some(9));
    assert_eq!(w.pop_due(Timestamp(50)), None); // 7 not due yet
    assert_eq!(w.pop_due(Timestamp(100)), Some(7));
}

#[test]
fn rearm_replaces_and_cancel_removes() {
    let mut w = TimerWheel::new();
    w.set(1, Timestamp(100), SeqNo(1));
    w.set(1, Timestamp(20), SeqNo(2)); // re-arm earlier
    assert_eq!(w.len(), 1);
    assert_eq!(w.pop_due(Timestamp(20)), Some(1));

    w.set(2, Timestamp(30), SeqNo(3));
    w.cancel(2);
    assert_eq!(w.pop_due(Timestamp(1_000)), None);
    assert_eq!(w.len(), 0);
}

#[test]
fn snapshot_round_trips() {
    let mut w = TimerWheel::new();
    w.set(5, Timestamp(500), SeqNo(3));
    w.set(2, Timestamp(200), SeqNo(1));
    let snap = w.snapshot();
    // Serialized in id order.
    assert_eq!(snap, vec![(2, 200, 1), (5, 500, 3)]);
    let mut w2 = TimerWheel::restore(snap);
    assert_eq!(w2.pop_due(Timestamp(200)), Some(2));
    assert_eq!(w2.pop_due(Timestamp(500)), Some(5));
}

#[derive(PartialEq, Debug)]
enum Cmd {
    Arm { id: u64, at: u64 },
    Cancel { id: u64 },
    /// Arm `id` to fire at `at`, and when it fires, re-arm it once at `again`.
    ArmRepeating { id: u64, at: u64, again: u64 },
}

impl Encode for Cmd {
    fn encodable(&self) -> bool {
        true
    }
    fn bytes(&self) -> Bytes {
        unreachable!()
    }
    fn encode(&self, out: &mut Vec<u8>) {
        match self {
            Cmd::Arm { id, at } => (0u16, *id, *at).encode(out),
            Cmd::Cancel { id } => (1u16, *id).encode(out),
            Cmd::ArmRepeating { id, at, again } => (2u16, *id, *at, *again).encode(out),
        }
    }
    fn encoded_len(&self) -> usize {
        match self {
            Cmd::Arm { .. } => 18,
            Cmd::Cancel { .. } => 10,
            Cmd::ArmRepeating { .. } => 26,
        }
    }
}

impl Decode for Cmd {
    fn parse(_: Bytes) -> Parsed {
        unreachable!()
    }
    fn same(&self, _: &Self) -> bool {
        unreachable!()
    }
    fn law_parse_is_bounded(_: Bytes) {}
    fn law_roundtrip(&self, _: Bytes) {}
    fn law_cut_ends_early(&self, _: Bytes) {}
    fn law_canonical(&self, _: &Self) {}
    fn decode(buf: &mut &[u8]) -> Result<Self, CodecError> {
        match u16::decode(buf)? {
            0 => Ok(Cmd::Arm { id: u64::decode(buf)?, at: u64::decode(buf)? }),
            1 => Ok(Cmd::Cancel { id: u64::decode(buf)? }),
            2 => Ok(Cmd::ArmRepeating {
                id: u64::decode(buf)?,
                at: u64::decode(buf)?,
                again: u64::decode(buf)?,
            }),
            _ => Err(CodecError::InvalidValue("enum discriminant")),
        }
    }
}

/// Arms and cancels timers on command and records every timer that fires.
/// Commands emit nothing, so the output stream is the firing history.
#[derive(Default)]
struct TimersFull {
    fired: Vec<u64>,
    repeat: std::collections::BTreeMap<u64, u64>,
}

impl Service for TimersFull {
    type Input = Cmd;
    type Output = u64;
    type Snapshot = (Vec<u64>, Vec<(u64, u64)>);
    type Config = ();
    fn config(&self) {}
    fn state(&self) -> Bytes {
        unreachable!()
    }
    fn genesis_state(_: ()) -> Bytes {
        unreachable!()
    }
    fn step(_: (), _: Bytes, _: u64, _: u64, _: Bytes) -> Step {
        unreachable!()
    }
    fn timer_step(_: (), _: Bytes, _: u64, _: u64, _: u64) -> Step {
        unreachable!()
    }
    fn restored(_: (), _: Bytes) -> Bytes {
        unreachable!()
    }
    fn law_restore_inverts_snapshot(&self) {}

    fn genesis(_: &()) -> Self {
        TimersFull::default()
    }

    fn apply(&mut self, _seq: SeqNo, input: &Cmd, ctx: &mut Ctx<'_, u64>) {
        match *input {
            Cmd::Arm { id, at } => ctx.set_timer(id, Timestamp(at)),
            Cmd::Cancel { id } => ctx.cancel_timer(id),
            Cmd::ArmRepeating { id, at, again } => {
                self.repeat.insert(id, again);
                ctx.set_timer(id, Timestamp(at));
            }
        }
    }

    fn on_timer(&mut self, id: u64, ctx: &mut Ctx<'_, u64>) {
        self.fired.push(id);
        ctx.emit(id);
        // A repeating timer re-arms itself once, from inside the handler.
        if let Some(again) = self.repeat.remove(&id) {
            ctx.set_timer(id, Timestamp(again));
        }
    }

    fn snapshot(&self) -> (Vec<u64>, Vec<(u64, u64)>) {
        (self.fired.clone(), self.repeat.iter().map(|(&k, &v)| (k, v)).collect())
    }

    fn restore(snap: (Vec<u64>, Vec<(u64, u64)>), _: &()) -> Self {
        TimersFull { fired: snap.0, repeat: snap.1.into_iter().collect() }
    }
}

fn config() -> NodeConfig {
    let mut c = NodeConfig::new(b"/timers");
    c.journal.fsync = FsyncPolicy::EveryFrame;
    c
}

fn open(c: NodeConfig, at: u64, disk: SimStorage) -> Node<TimersFull, ManualClock, SimStorage> {
    Node::open_with(c, (), ManualClock(Timestamp(at)), disk).unwrap()
}

#[test]
fn timer_fires_when_sequenced_time_reaches_its_deadline() {
    let mut node = open(config(), 100, SimStorage::new());

    // Arm a timer for t=500. Nothing fires yet (clock at 100).
    let (_seq, out) = node.submit(&Cmd::Arm { id: 42, at: 500 }).unwrap();
    assert!(out.is_empty(), "timer fired before its deadline");
    assert_eq!(node.pending_timer_count(), 1);

    // A submit stamped at t=600 fires the timer as part of that step.
    node.clock_mut().0 = Timestamp(600);
    let (_seq, out) = node.submit(&Cmd::Arm { id: 99, at: 10_000 }).unwrap();
    assert_eq!(out, vec![42], "deadline-crossing did not fire timer 42");
    assert_eq!(node.pending_timer_count(), 1, "only timer 99 remains armed");
    assert_eq!(node.service().fired, vec![42]);
}

#[test]
fn a_tick_alone_fires_due_timers() {
    let mut node = open(config(), 1, SimStorage::new());
    node.submit(&Cmd::Arm { id: 1, at: 50 }).unwrap();
    node.submit(&Cmd::Arm { id: 2, at: 50 }).unwrap();
    node.submit(&Cmd::Arm { id: 3, at: 90 }).unwrap();

    // A tick at t=50 fires 1 and 2 (id order), not 3.
    node.clock_mut().0 = Timestamp(50);
    node.tick().unwrap();
    assert_eq!(node.service().fired, vec![1, 2]);

    node.clock_mut().0 = Timestamp(90);
    node.tick().unwrap();
    assert_eq!(node.service().fired, vec![1, 2, 3]);
}

#[test]
fn cancel_prevents_firing() {
    let mut node = open(config(), 1, SimStorage::new());
    node.submit(&Cmd::Arm { id: 7, at: 100 }).unwrap();
    node.submit(&Cmd::Cancel { id: 7 }).unwrap();
    assert_eq!(node.pending_timer_count(), 0);
    node.clock_mut().0 = Timestamp(1_000);
    node.tick().unwrap();
    assert!(node.service().fired.is_empty(), "cancelled timer still fired");
}

#[test]
fn firing_is_journaled_and_replays_identically() {
    let disk = {
        let mut node = open(config(), 1, SimStorage::new());
        node.submit(&Cmd::Arm { id: 10, at: 200 }).unwrap();
        node.submit(&Cmd::Arm { id: 20, at: 300 }).unwrap();
        node.clock_mut().0 = Timestamp(250);
        node.tick().unwrap(); // fires 10
        node.clock_mut().0 = Timestamp(350);
        node.tick().unwrap(); // fires 20
        assert_eq!(node.service().fired, vec![10, 20]);
        // A replay of the on-disk journal must reproduce the exact state.
        assert!(node.verify_replay().unwrap(), "replay diverged from live");
        node.into_storage()
    };
    // Recovery replays the journaled firings.
    let node = open(config(), 400, disk);
    assert_eq!(node.service().fired, vec![10, 20], "recovery lost timer firings");
    assert_eq!(node.pending_timer_count(), 0);
}

#[test]
fn timers_armed_before_a_snapshot_still_fire_after_recovery() {
    let disk = {
        let mut c = config();
        c.snapshot_every = Some(2); // snapshot frequently
        let mut node = open(c, 1, SimStorage::new());
        // Arm a far-future timer, then submit enough to trigger snapshots so
        // the timer's arming frame is compacted below the snapshot.
        node.submit(&Cmd::Arm { id: 55, at: 9_000 }).unwrap();
        for i in 0..10 {
            node.submit(&Cmd::Arm { id: 1000 + i, at: 8_000 }).unwrap();
        }
        node.sync().unwrap();
        // The wheel is part of the snapshot; timer 55 is still armed.
        assert!(node.pending_timer_count() >= 1);
        node.into_storage()
    };
    // Recover (from a snapshot that post-dates timer 55's arming), then fire.
    let mut node = open(config(), 9_500, disk);
    node.tick().unwrap();
    assert!(
        node.service().fired.contains(&55),
        "a timer armed before the snapshot was lost across recovery"
    );
}

#[test]
fn repeating_timer_rearms_from_within_its_handler() {
    let mut node = open(config(), 1, SimStorage::new());
    node.submit(&Cmd::ArmRepeating { id: 5, at: 100, again: 200 }).unwrap();
    node.clock_mut().0 = Timestamp(150);
    node.tick().unwrap(); // fires at 100, re-arms for 200
    assert_eq!(node.service().fired, vec![5]);
    assert_eq!(node.pending_timer_count(), 1, "did not re-arm");
    node.clock_mut().0 = Timestamp(250);
    node.tick().unwrap(); // fires the re-armed instance
    assert_eq!(node.service().fired, vec![5, 5]);
    assert_eq!(node.pending_timer_count(), 0, "re-armed timer should not repeat again");

    // And this whole re-arm dance replays deterministically.
    assert!(node.verify_replay().unwrap());
}

#[test]
fn timer_fired_frames_carry_the_trigger_time() {
    // A burst of same-deadline timers must all fire at that deadline without
    // advancing sequenced time.
    let mut node = open(config(), 1, SimStorage::new());
    let sub = node.subscribe();
    for id in 0..5 {
        node.submit(&Cmd::Arm { id, at: 100 }).unwrap();
    }
    node.clock_mut().0 = Timestamp(100);
    node.tick().unwrap();
    assert_eq!(node.service().fired, vec![0, 1, 2, 3, 4]);
    // Every such frame is stamped at t=100 (the trigger), not later.
    let fired_stamps: Vec<u64> = node
        .drain(sub)
        .iter()
        .filter(|f| f.kind == FrameKind::TimerFired)
        .map(|f| f.timestamp.as_nanos())
        .collect();
    assert_eq!(fired_stamps, vec![100, 100, 100, 100, 100]);
}
