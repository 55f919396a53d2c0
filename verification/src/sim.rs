//! Deterministic simulation of a whole node.
//!
//! A service is a function of its sequenced inputs, and time, storage and
//! chance all come from outside it. So a node with its journal, its crashes
//! and its recoveries runs here on one seed. A failing seed is the
//! reproduction.
//!
//! One run drives a service with seeded inputs over a [`SimStorage`] disk,
//! mixed with syncs, sequenced ticks and power loss. After each power loss
//! the run checks:
//!
//! 1. The node opens again.
//! 2. Every frame that was synced is still there.
//! 3. The frames that are left are a gapless prefix of what was submitted.
//! 4. The state is that of an independent replay of those frames.
//! 5. The service's own [`Invariants`] hold.
//!
//! [`SimStorage`]: crate::sim_storage::SimStorage

use vstd::prelude::*;
use vstd::string::StringExecFns;

pub mod clean;
pub mod demo;
pub mod judge;
pub mod replay;
pub mod run;

use crate::node::TimeSource;
use crate::seq::Timestamp;
use crate::service::Service;
use crate::text::{decimal, push_decimal, text};

verus! {

/// A broken safety property. The message says what held false.
#[derive(Debug, PartialEq, Eq)]
pub struct InvariantViolation {
    pub what: String,
}

impl InvariantViolation {
    pub fn new(what: String) -> (r: Self)
        ensures
            r.what@ == what@,
    {
        InvariantViolation { what }
    }
}

/// What a message says.
pub type Words = Seq<char>;

/// A safety property of a state machine, held against every state that the
/// simulator reaches.
pub trait Invariants: Service {
    /// What is wrong with a state, if something is.
    spec fn verdict(config: Self::Config, state: Seq<u8>) -> Option<Words>;

    fn check(&self) -> (r: Result<(), InvariantViolation>)
        ensures
            match Self::verdict(self.config(), self.state()) {
                None => r is Ok,
                Some(what) => r is Err && r->Err_0.what@ == what,
            },
    ;
}

/// Virtual time, advanced only by the simulator.
#[derive(Debug, Clone, Copy, PartialEq, Eq, Structural, Default)]
pub struct SimClock {
    pub nanos: u64,
}

impl SimClock {
    pub fn advance(&mut self, nanos: u64)
        ensures
            final(self).nanos == old(self).nanos.wrapping_add(nanos),
    {
        self.nanos = self.nanos.wrapping_add(nanos);
    }
}

impl TimeSource for SimClock {
    /// It shows how far it was advanced, and stays.
    open spec fn reads(&self, after: Self, now: u64) -> bool {
        after == *self && now == self.nanos
    }

    fn now(&mut self) -> (r: Timestamp) {
        Timestamp(self.nanos)
    }
}

/// Knobs for one simulated run. Per-mille dials are per-step probabilities;
/// the remainder of the probability mass submits an application input.
#[derive(Debug, Clone, Copy, PartialEq, Eq, Structural)]
pub struct SimConfig {
    pub seed: u64,
    /// Number of simulated operations.
    pub steps: u32,
    /// Probability (per mille, per step) of power loss and recovery.
    pub crash_per_mille: u32,
    /// Probability (per mille, per step) of an explicit journal sync.
    pub sync_per_mille: u32,
    /// Probability (per mille, per step) of a sequenced tick.
    pub tick_per_mille: u32,
    /// Small on purpose: forces frequent segment rolls.
    pub segment_bytes: u64,
    /// Whether surviving tails may take a bit flip (torn sector).
    pub torn_tails: bool,
    /// Snapshot state every `n` sequenced frames; `None` is never.
    pub snapshot_every: Option<u64>,
}

impl SimConfig {
    pub fn new(seed: u64) -> (r: Self)
        ensures
            r == (SimConfig {
                seed,
                steps: 400,
                crash_per_mille: 30,
                sync_per_mille: 100,
                tick_per_mille: 80,
                segment_bytes: 512,
                torn_tails: true,
                snapshot_every: None,
            }),
    {
        SimConfig {
            seed,
            steps: 400,
            crash_per_mille: 30,
            sync_per_mille: 100,
            tick_per_mille: 80,
            segment_bytes: 512,
            torn_tails: true,
            snapshot_every: None,
        }
    }
}

/// What a clean run did.
#[derive(Debug, Clone, Copy, PartialEq, Eq, Structural, Default)]
pub struct SimStats {
    pub inputs: u64,
    pub ticks: u64,
    pub syncs: u64,
    pub crashes: u64,
}

/// A failed run: seed and step are the complete reproduction recipe.
#[derive(Debug, PartialEq, Eq)]
pub struct SimFailure {
    pub seed: u64,
    /// The step, counted from 0, at which the violation was detected.
    pub step: u32,
    pub violation: InvariantViolation,
}

impl SimFailure {
    /// What the failure says.
    pub open spec fn told(&self) -> Seq<char> {
        "seed "@ + decimal(self.seed as nat) + " failed at step "@ + decimal(self.step as nat)
            + ": "@ + self.violation.what@
    }

    pub fn message(&self) -> (r: String)
        ensures
            r@ == self.told(),
    {
        let mut out = text("seed ");
        push_decimal(&mut out, self.seed);
        out.append(" failed at step ");
        push_decimal(&mut out, self.step as u64);
        out.append(": ");
        out.append(self.violation.what.as_str());
        out
    }
}

/// A failure with the shortest schedule that is known to show it.
#[derive(Debug, PartialEq, Eq)]
pub struct ShrunkFailure {
    pub failure: SimFailure,
    /// The same config with `seed = failure.seed` and `steps = min_steps`
    /// reproduces the violation.
    pub min_steps: u32,
}

impl ShrunkFailure {
    pub fn message(&self) -> (r: String)
        ensures
            r@ == self.failure.told() + " (reproduce with seed="@ + decimal(
                self.failure.seed as nat,
            ) + " steps="@ + decimal(self.min_steps as nat) + ")"@,
    {
        let mut out = self.failure.message();
        out.append(" (reproduce with seed=");
        push_decimal(&mut out, self.failure.seed);
        out.append(" steps=");
        push_decimal(&mut out, self.min_steps as u64);
        out.append(")");
        out
    }
}

} // verus!
