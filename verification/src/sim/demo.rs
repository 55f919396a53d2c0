//! A small bank with the classic conservation invariant: what the simulator
//! runs by default, and a template for a service of one's own.

use vstd::prelude::*;
use vstd::string::StringExecFns;

use crate::codec::collections::concat_bytes;
use crate::codec::cut::lemma_cut_variant;
use crate::codec::tagged::{decode_body, lemma_tagged_bounded, lemma_tagged_canonical,
    lemma_tagged_roundtrip, lemma_tags_differ, parse_tag, parse_tagged, tagged_bytes, unknown_tag};
use crate::codec::{parse_all, CodecError, Decode, Encode, Parsed};
use crate::frame::{FrameKind, Record};
use crate::rng::{draw, next_state, Rng};
use crate::seq::SeqNo;
use crate::service::{encoded, Ctx, Service, Step, TimerReq};
use crate::sim::clean::{conforming, faultless, timeless};
use crate::sim::judge::rerun;
use crate::sim::run::feeds;
use crate::sim::{InvariantViolation, Invariants, SimConfig};
use crate::text::{push_decimal, signed_decimal, text};

verus! {

broadcast use crate::le::lemma_le_bytes_len;

pub const ACCOUNTS: u64 = 8;

pub const OPENING_BALANCE: i64 = 1000;

#[derive(Debug, Clone, Copy, PartialEq, Eq, Structural)]
pub enum Cmd {
    Transfer { from: u8, to: u8, amount: u32 },
}

impl Encode for Cmd {
    open spec fn encodable(&self) -> bool {
        true
    }

    open spec fn bytes(&self) -> Seq<u8> {
        let Cmd::Transfer { from, to, amount } = *self;
        tagged_bytes(0u16, (from, to, amount))
    }

    fn encode(&self, out: &mut Vec<u8>) {
        let ghost start = out@;
        let Cmd::Transfer { from, to, amount } = *self;
        (0u16).encode(out);
        from.encode(out);
        to.encode(out);
        amount.encode(out);
        assert(out@ =~= start + self.bytes());
    }

    fn encoded_len(&self) -> (n: usize) {
        8
    }
}

impl Decode for Cmd {
    open spec fn parse(buf: Seq<u8>) -> Parsed {
        match parse_tag(buf) {
            Err(e) => Err(e),
            Ok(tag) => if tag == 0 {
                parse_tagged::<(u8, u8, u32)>(buf)
            } else {
                unknown_tag()
            },
        }
    }

    open spec fn same(&self, other: &Self) -> bool {
        self == other
    }

    fn decode(buf: &mut &[u8]) -> (r: Result<Self, CodecError>) {
        let ghost start = buf@;
        proof {
            u16::law_parse_is_bounded(start);
        }
        let tag: u16 = u16::decode(buf)?;
        proof {
            crate::le::lemma_pow256_values();
            crate::le::law_le_value_of_bytes(tag as nat, 2);
        }
        if tag == 0 {
            let (from, to, amount) = decode_body::<(u8, u8, u32)>(buf, Ghost(start))?;
            Ok(Cmd::Transfer { from, to, amount })
        } else {
            Err(CodecError::InvalidValue("enum discriminant"))
        }
    }

    proof fn law_parse_is_bounded(buf: Seq<u8>) {
        lemma_tagged_bounded::<(u8, u8, u32)>(buf);
    }

    proof fn law_roundtrip(&self, rest: Seq<u8>) {
        let Cmd::Transfer { from, to, amount } = *self;
        lemma_tagged_roundtrip(0u16, (from, to, amount), rest);
    }

    proof fn law_cut_ends_early(&self, cut: Seq<u8>) {
        let Cmd::Transfer { from, to, amount } = *self;
        lemma_cut_variant(0u16, (from, to, amount), cut.len() as int);
    }

    proof fn law_canonical(&self, other: &Self) {
        let Cmd::Transfer { from, to, amount } = *self;
        let Cmd::Transfer { from: from2, to: to2, amount: amount2 } = *other;
        lemma_tagged_canonical(0u16, (from, to, amount), (from2, to2, amount2));
    }
}

/// The command that its bytes stand for.
pub open spec fn command(bytes: Seq<u8>) -> Cmd {
    Cmd::Transfer {
        from: bytes[2],
        to: bytes[3],
        amount: crate::le::le_value(bytes.subrange(4, 8)) as u32,
    }
}

proof fn lemma_command(cmd: Cmd)
    ensures
        cmd.bytes().len() == 8,
        command(cmd.bytes()) == cmd,
{
    let Cmd::Transfer { from, to, amount } = cmd;
    let b = cmd.bytes();
    crate::le::lemma_pow256_values();
    crate::le::law_le_value_of_bytes(amount as nat, 4);
    crate::le::law_le_value_of_bytes(from as nat, 1);
    crate::le::law_le_value_of_bytes(to as nat, 1);
    assert(b.subrange(4, 8) =~= amount.bytes());
    assert(b[2] == from.bytes()[0]);
    assert(b[3] == to.bytes()[0]);
    assert(from.bytes().skip(1) =~= Seq::empty());
    assert(to.bytes().skip(1) =~= Seq::empty());
    reveal_with_fuel(crate::le::le_value, 2);
}

#[derive(Debug, Clone, Copy, PartialEq, Eq, Structural)]
pub enum Evt {
    Transferred { from: u8, to: u8, amount: u32 },
    /// Overdrafts and self-transfers are rejected, deterministically.
    Rejected,
}

impl Encode for Evt {
    open spec fn encodable(&self) -> bool {
        true
    }

    open spec fn bytes(&self) -> Seq<u8> {
        match *self {
            Evt::Transferred { from, to, amount } => tagged_bytes(0u16, (from, to, amount)),
            Evt::Rejected => tagged_bytes(1u16, ()),
        }
    }

    fn encode(&self, out: &mut Vec<u8>) {
        let ghost start = out@;
        match *self {
            Evt::Transferred { from, to, amount } => {
                (0u16).encode(out);
                from.encode(out);
                to.encode(out);
                amount.encode(out);
            },
            Evt::Rejected => {
                (1u16).encode(out);
            },
        }
        assert(out@ =~= start + self.bytes());
    }

    fn encoded_len(&self) -> (n: usize) {
        match *self {
            Evt::Transferred { .. } => 8,
            Evt::Rejected => 2,
        }
    }
}

impl Decode for Evt {
    open spec fn parse(buf: Seq<u8>) -> Parsed {
        match parse_tag(buf) {
            Err(e) => Err(e),
            Ok(tag) => if tag == 0 {
                parse_tagged::<(u8, u8, u32)>(buf)
            } else if tag == 1 {
                parse_tagged::<()>(buf)
            } else {
                unknown_tag()
            },
        }
    }

    open spec fn same(&self, other: &Self) -> bool {
        self == other
    }

    fn decode(buf: &mut &[u8]) -> (r: Result<Self, CodecError>) {
        let ghost start = buf@;
        proof {
            u16::law_parse_is_bounded(start);
        }
        let tag: u16 = u16::decode(buf)?;
        proof {
            crate::le::lemma_pow256_values();
            crate::le::law_le_value_of_bytes(tag as nat, 2);
        }
        if tag == 0 {
            let (from, to, amount) = decode_body::<(u8, u8, u32)>(buf, Ghost(start))?;
            Ok(Evt::Transferred { from, to, amount })
        } else if tag == 1 {
            let _body = decode_body::<()>(buf, Ghost(start))?;
            Ok(Evt::Rejected)
        } else {
            Err(CodecError::InvalidValue("enum discriminant"))
        }
    }

    proof fn law_parse_is_bounded(buf: Seq<u8>) {
        lemma_tagged_bounded::<(u8, u8, u32)>(buf);
        lemma_tagged_bounded::<()>(buf);
    }

    proof fn law_roundtrip(&self, rest: Seq<u8>) {
        match *self {
            Evt::Transferred { from, to, amount } => {
                lemma_tagged_roundtrip(0u16, (from, to, amount), rest);
            },
            Evt::Rejected => {
                lemma_tagged_roundtrip(1u16, (), rest);
            },
        }
    }

    proof fn law_cut_ends_early(&self, cut: Seq<u8>) {
        match *self {
            Evt::Transferred { from, to, amount } => {
                lemma_cut_variant(0u16, (from, to, amount), cut.len() as int);
            },
            Evt::Rejected => {
                lemma_cut_variant(1u16, (), cut.len() as int);
            },
        }
    }

    proof fn law_canonical(&self, other: &Self) {
        match (*self, *other) {
            (
                Evt::Transferred { from, to, amount },
                Evt::Transferred { from: from2, to: to2, amount: amount2 },
            ) => {
                lemma_tagged_canonical(0u16, (from, to, amount), (from2, to2, amount2));
            },
            (Evt::Transferred { from, to, amount }, Evt::Rejected) => {
                lemma_tags_differ(0u16, 1u16, (from, to, amount).bytes(), ().bytes());
            },
            (Evt::Rejected, Evt::Transferred { from, to, amount }) => {
                lemma_tags_differ(1u16, 0u16, ().bytes(), (from, to, amount).bytes());
            },
            (Evt::Rejected, Evt::Rejected) => {},
        }
    }
}

/// The bytes of balances.
pub open spec fn ledger_bytes(balances: Seq<i64>) -> Seq<u8> {
    crate::le::le_bytes(balances.len(), 4) + concat_bytes(balances)
}

/// The balances that a state stands for.
pub open spec fn ledger(state: Seq<u8>) -> Seq<i64> {
    choose|balances: Seq<i64>|
        balances.len() <= u32::MAX && #[trigger] ledger_bytes(balances) == state
}

/// A state tells the balances it was made of.
pub proof fn lemma_ledger(balances: Seq<i64>)
    requires
        balances.len() <= u32::MAX,
    ensures
        ledger(ledger_bytes(balances)) == balances,
{
    let state = ledger_bytes(balances);
    let other = ledger(state);
    assert(other.len() <= u32::MAX && ledger_bytes(other) == state);
    crate::le::lemma_pow256_values();
    assert(state.take(4) =~= crate::le::le_bytes(balances.len(), 4));
    assert(ledger_bytes(other).take(4) =~= crate::le::le_bytes(other.len(), 4));
    crate::le::lemma_le_bytes_injective(balances.len(), other.len(), 4);
    assert(state.skip(4) =~= concat_bytes(balances));
    assert(ledger_bytes(other).skip(4) =~= concat_bytes(other));
    crate::codec::collections::lemma_items_canonical(balances, other);
    assert forall|i: int| 0 <= i < balances.len() implies balances[i] == other[i] by {
        assert(balances[i].same(&other[i]));
    }
    assert(other =~= balances);
}

/// The balances after a transfer; nothing where it is rejected.
pub open spec fn transferred(balances: Seq<i64>, cmd: Cmd) -> Option<Seq<i64>> {
    let Cmd::Transfer { from, to, amount } = cmd;
    if from == to || from >= balances.len() || to >= balances.len() || balances[from as int]
        < amount {
        None
    } else {
        Some(
            balances.update(from as int, (balances[from as int] - amount) as i64).update(
                to as int,
                balances[to as int].wrapping_add(amount as i64),
            ),
        )
    }
}

/// A deterministic toy bank: fixed accounts, transfers only.
pub struct Bank {
    balances: Vec<i64>,
}

impl Bank {
    #[verifier::type_invariant]
    spec fn inv(&self) -> bool {
        self.balances@.len() <= u32::MAX
    }

    pub closed spec fn accounts(&self) -> Seq<i64> {
        self.balances@
    }
}

/// The event of a command.
pub open spec fn outcome(balances: Seq<i64>, cmd: Cmd) -> Evt {
    match transferred(balances, cmd) {
        None => Evt::Rejected,
        Some(_) => match cmd {
            Cmd::Transfer { from, to, amount } => Evt::Transferred { from, to, amount },
        },
    }
}

impl Service for Bank {
    type Input = Cmd;

    type Output = Evt;

    type Snapshot = Vec<i64>;

    type Config = ();

    open spec fn config(&self) -> () {
        ()
    }

    open spec fn state(&self) -> Seq<u8> {
        ledger_bytes(self.accounts())
    }

    open spec fn genesis_state(config: ()) -> Seq<u8> {
        ledger_bytes(Seq::new(8, |i: int| OPENING_BALANCE))
    }

    open spec fn step(config: (), state: Seq<u8>, seq: u64, now: u64, input: Seq<u8>) -> Step {
        let balances = ledger(state);
        let cmd = command(input);
        Step {
            state: match transferred(balances, cmd) {
                None => state,
                Some(after) => ledger_bytes(after),
            },
            outputs: seq![outcome(balances, cmd).bytes()],
            timers: Seq::empty(),
        }
    }

    open spec fn timer_step(config: (), state: Seq<u8>, seq: u64, now: u64, id: u64) -> Step {
        Step { state, outputs: Seq::empty(), timers: Seq::empty() }
    }

    open spec fn restored(config: (), snapshot: Seq<u8>) -> Seq<u8> {
        snapshot
    }

    fn genesis(config: &()) -> (s: Self) {
        let balances: Vec<i64> = vec![
            OPENING_BALANCE, OPENING_BALANCE, OPENING_BALANCE, OPENING_BALANCE,
            OPENING_BALANCE, OPENING_BALANCE, OPENING_BALANCE, OPENING_BALANCE,
        ];
        assert(balances@ =~= Seq::new(8, |i: int| OPENING_BALANCE));
        Bank { balances }
    }

    fn apply(&mut self, seq: SeqNo, input: &Cmd, ctx: &mut Ctx<'_, Evt>) {
        let ghost before = ctx.outputs@;
        let ghost timers = ctx.timers@;
        let ghost was = self.accounts();
        proof {
            use_type_invariant(&*self);
            lemma_ledger(self.balances@);
            lemma_command(*input);
        }
        let Cmd::Transfer { from, to, amount } = *input;
        let from_idx: usize = from as usize;
        let to_idx: usize = to as usize;
        let len: usize = self.balances.len();
        let event: Evt = if from == to || from_idx >= len || to_idx >= len
            || self.balances[from_idx] < amount as i64 {
            Evt::Rejected
        } else {
            let mut balances: Vec<i64> = Vec::new();
            std::mem::swap(&mut balances, &mut self.balances);
            let left: i64 = balances[from_idx] - amount as i64;
            let grown: i64 = balances[to_idx].wrapping_add(amount as i64);
            balances.set(from_idx, left);
            balances.set(to_idx, grown);
            self.balances = balances;
            Evt::Transferred { from, to, amount }
        };
        ctx.emit(event);
        proof {
            assert(event == outcome(was, *input));
            assert(encoded(before.push(event)) =~= encoded(before) + seq![event.bytes()]);
            assert(timers + Seq::<TimerReq>::empty() =~= timers);
        }
    }

    fn on_timer(&mut self, id: u64, ctx: &mut Ctx<'_, Evt>) {
        proof {
            assert(encoded(ctx.outputs@) + Seq::<Seq<u8>>::empty() =~= encoded(ctx.outputs@));
            assert(ctx.timers@ + Seq::<TimerReq>::empty() =~= ctx.timers@);
        }
    }

    fn snapshot(&self) -> (r: Vec<i64>) {
        proof {
            use_type_invariant(self);
        }
        let mut out: Vec<i64> = Vec::new();
        let mut i: usize = 0;
        while i < self.balances.len()
            invariant
                i <= self.balances@.len(),
                out@ == self.balances@.take(i as int),
            decreases self.balances@.len() - i,
        {
            out.push(self.balances[i]);
            assert(out@ =~= self.balances@.take(i + 1));
            i = i + 1;
        }
        assert(out@ =~= self.balances@);
        out
    }

    fn restore(snap: Vec<i64>, config: &()) -> (s: Self) {
        Bank { balances: snap }
    }

    proof fn law_restore_inverts_snapshot(&self) {
    }
}

/// The sum of balances.
pub open spec fn total(balances: Seq<i64>) -> int
    decreases balances.len(),
{
    if balances.len() == 0 {
        0
    } else {
        total(balances.drop_last()) + balances.last()
    }
}

/// The first negative balance from `i` on.
pub open spec fn overdrawn(balances: Seq<i64>, i: nat) -> Option<i64>
    decreases balances.len() - i,
{
    if i >= balances.len() {
        None
    } else if balances[i as int] < 0 {
        Some(balances[i as int])
    } else {
        overdrawn(balances, i + 1)
    }
}

/// Appends `v` in decimal.
fn push_wide(out: &mut String, v: i128)
    requires
        v > i128::MIN,
    ensures
        final(out)@ == old(out)@ + signed_decimal(v as int),
{
    let ghost before = out@;
    if v < 0 {
        out.append("-");
        push_natural(out, (-v) as u128);
        assert(out@ =~= before + signed_decimal(v as int));
    } else {
        push_natural(out, v as u128);
    }
}

fn push_natural(out: &mut String, v: u128)
    ensures
        final(out)@ == old(out)@ + crate::text::decimal(v as nat),
    decreases v,
{
    let ghost before = out@;
    if v >= 10 {
        push_natural(out, v / 10);
        push_decimal(out, (v % 10) as u64);
        assert(out@ =~= before + crate::text::decimal(v as nat));
    } else {
        push_decimal(out, v as u64);
    }
}

/// What is wrong with balances, if something is.
pub open spec fn complaint(balances: Seq<i64>) -> Option<Seq<char>> {
    if total(balances) != 8000 {
        Some(
            "money not conserved: total is "@ + signed_decimal(total(balances))
                + ", expected 8000"@,
        )
    } else {
        match overdrawn(balances, 0) {
            Some(b) => Some("negative balance: "@ + signed_decimal(b as int)),
            None => None,
        }
    }
}

impl Invariants for Bank {
    open spec fn verdict(config: (), state: Seq<u8>) -> Option<Seq<char>> {
        complaint(ledger(state))
    }

    fn check(&self) -> (r: Result<(), InvariantViolation>) {
        proof {
            use_type_invariant(self);
            lemma_ledger(self.balances@);
        }
        let n: usize = self.balances.len();
        let mut sum: i128 = 0;
        let mut i: usize = 0;
        while i < n
            invariant
                i <= n == self.balances@.len(),
                n <= u32::MAX,
                sum == total(self.balances@.take(i as int)),
                -0x8000_0000_0000_0000 * i <= sum <= 0x7FFF_FFFF_FFFF_FFFF * i,
            decreases n - i,
        {
            proof {
                assert(self.balances@.take(i + 1).drop_last() =~= self.balances@.take(i as int));
            }
            sum = sum + self.balances[i] as i128;
            i = i + 1;
        }
        assert(self.balances@.take(n as int) =~= self.balances@);
        if sum != 8000 {
            let mut what = text("money not conserved: total is ");
            push_wide(&mut what, sum);
            what.append(", expected 8000");
            return Err(InvariantViolation::new(what));
        }
        let mut j: usize = 0;
        while j < n
            invariant
                j <= n == self.balances@.len(),
                total(self.balances@) == 8000,
                ledger(self.state()) == self.balances@,
                overdrawn(self.balances@, 0) == overdrawn(self.balances@, j as nat),
            decreases n - j,
        {
            if self.balances[j] < 0 {
                let mut what = text("negative balance: ");
                crate::text::push_signed(&mut what, self.balances[j]);
                return Err(InvariantViolation::new(what));
            }
            j = j + 1;
        }
        Ok(())
    }
}

/// The transfer that is drawn next.
pub open spec fn drawn(state: u64) -> Cmd {
    let second = next_state(state);
    Cmd::Transfer {
        from: (draw(state) % 8) as u8,
        to: (draw(second) % 8) as u8,
        amount: (draw(next_state(second)) % 600) as u32,
    }
}

/// The seeded workload for [`Bank`].
pub fn gen_transfer(rng: &mut Rng) -> (r: Cmd)
    ensures
        r == drawn(old(rng).state()),
        final(rng).state() == next_state(next_state(next_state(old(rng).state()))),
{
    let from: u8 = rng.below(ACCOUNTS) as u8;
    let to: u8 = rng.below(ACCOUNTS) as u8;
    let amount: u32 = rng.below(600) as u32;
    Cmd::Transfer { from, to, amount }
}

/// Eight accounts that owe nothing and hold the opening balances between
/// them.
pub open spec fn in_order(balances: Seq<i64>) -> bool {
    &&& balances.len() == 8
    &&& forall|i: int| 0 <= i < balances.len() ==> #[trigger] balances[i] >= 0
    &&& total(balances) == 8000
}

proof fn lemma_total_update(balances: Seq<i64>, i: int, v: i64)
    requires
        0 <= i < balances.len(),
    ensures
        total(balances.update(i, v)) == total(balances) - balances[i] + v,
    decreases balances.len(),
{
    let after = balances.update(i, v);
    if i == balances.len() - 1 {
        assert(after.drop_last() =~= balances.drop_last());
    } else {
        assert(after.drop_last() =~= balances.drop_last().update(i, v));
        lemma_total_update(balances.drop_last(), i, v);
    }
}

/// Where nobody owes anything, nobody holds more than there is.
proof fn lemma_total_bounds(balances: Seq<i64>, i: int)
    requires
        forall|k: int| 0 <= k < balances.len() ==> #[trigger] balances[k] >= 0,
        0 <= i < balances.len(),
    ensures
        balances[i] <= total(balances),
    decreases balances.len(),
{
    let front = balances.drop_last();
    assert forall|k: int| 0 <= k < front.len() implies #[trigger] front[k] >= 0 by {
        assert(front[k] == balances[k]);
    }
    reveal_with_fuel(total, 2);
    assert(balances[balances.len() - 1] >= 0);
    if i < front.len() {
        lemma_total_bounds(front, i);
    } else if front.len() > 0 {
        lemma_total_bounds(front, 0);
    }
}

proof fn lemma_nobody_owes(balances: Seq<i64>, i: nat)
    requires
        forall|k: int| 0 <= k < balances.len() ==> #[trigger] balances[k] >= 0,
    ensures
        overdrawn(balances, i) is None,
    decreases balances.len() - i,
{
    if i < balances.len() {
        lemma_nobody_owes(balances, i + 1);
    }
}

/// A transfer moves money and makes none.
pub proof fn law_transfer_conserves_money(balances: Seq<i64>, cmd: Cmd)
    requires
        in_order(balances),
    ensures
        transferred(balances, cmd) matches Some(after) ==> in_order(after),
        complaint(balances) is None,
{
    lemma_nobody_owes(balances, 0);
    let Cmd::Transfer { from, to, amount } = cmd;
    if let Some(after) = transferred(balances, cmd) {
        let left = (balances[from as int] - amount) as i64;
        let mid = balances.update(from as int, left);
        lemma_total_bounds(balances, from as int);
        lemma_total_bounds(balances, to as int);
        lemma_total_update(balances, from as int, left);
        lemma_total_update(mid, to as int, (balances[to as int] + amount) as i64);
        assert(balances[to as int].wrapping_add(amount as i64) == balances[to as int] + amount);
        assert forall|i: int| 0 <= i < after.len() implies #[trigger] after[i] >= 0 by {
            if i != from as int && i != to as int {
                assert(after[i] == balances[i]);
            }
        }
    }
}

/// Whatever is submitted, the bank is in order: no sequence of inputs leads to
/// a state that its own check finds fault with.
pub proof fn law_bank_stays_in_order(frames: Seq<Record>)
    ensures
        rerun::<Bank>((), frames) matches Ok(state) ==> {
            &&& in_order(ledger(state))
            &&& state == ledger_bytes(ledger(state))
            &&& Bank::verdict((), state) is None
        },
    decreases frames.len(),
{
    if frames.len() == 0 {
        let opening = Seq::new(8, |i: int| OPENING_BALANCE);
        lemma_ledger(opening);
        reveal_with_fuel(total, 9);
        assert(total(opening) == 8000);
        law_transfer_conserves_money(opening, arbitrary());
    } else {
        let f = frames.last();
        law_bank_stays_in_order(frames.drop_last());
        if let Ok(before) = rerun::<Bank>((), frames.drop_last()) {
            let balances = ledger(before);
            law_transfer_conserves_money(balances, arbitrary());
            if f.kind == FrameKind::Input {
                if let Ok(input) = parse_all::<Cmd>(f.payload) {
                    let cmd = command(input);
                    law_transfer_conserves_money(balances, cmd);
                    if let Some(after) = transferred(balances, cmd) {
                        lemma_ledger(after);
                        law_transfer_conserves_money(after, cmd);
                    }
                }
            }
        }
    }
}

/// The simulator has nothing to find in the bank.
pub proof fn law_bank_is_faultless()
    ensures
        faultless::<Bank>(()),
        timeless::<Bank>(()),
{
    assert forall|frames: Seq<Record>|
        (#[trigger] rerun::<Bank>((), frames)) matches Ok(state) ==> Bank::verdict(
            (),
            state,
        ) is None by {
        law_bank_stays_in_order(frames);
    }
}

/// A simulated run of the bank on its own workload is clean, whatever the
/// seed, the faults and the length.
pub proof fn law_bank_runs_clean(config: SimConfig)
    requires
        config.snapshot_every is None,
        config.segment_bytes >= 68,
    ensures
        feeds(gen_transfer),
        conforming::<Bank, _>(config, (), gen_transfer),
{
    law_bank_is_faultless();
    assert forall|rng: &mut Rng, input: Cmd| #[trigger]
        call_ensures(gen_transfer, (rng,), input) implies input.encodable()
        && input.bytes().len() == 8 by {
        lemma_command(input);
    }
}

/// A transfer is rejected where it is between one account and itself, where an
/// account is not there, or where the money is not; else the amount goes from the
/// one to the other, and no third account changes.
pub proof fn law_transfer_moves_the_amount(
    balances: Seq<i64>,
    from: u8,
    to: u8,
    amount: u32,
    other: int,
)
    ensures
        ({
            let cmd = Cmd::Transfer { from, to, amount };
            match transferred(balances, cmd) {
                None => from == to || from >= balances.len() || to >= balances.len()
                    || balances[from as int] < amount,
                Some(after) => {
                    &&& from != to && from < balances.len() && to < balances.len()
                    &&& balances[from as int] >= amount
                    &&& after.len() == balances.len()
                    &&& after[from as int] == balances[from as int] - amount
                    &&& balances[to as int] + amount <= i64::MAX ==> after[to as int]
                        == balances[to as int] + amount
                    &&& 0 <= other < balances.len() && other != from && other != to ==> after[other]
                        == balances[other]
                },
            }
        }),
        outcome(balances, Cmd::Transfer { from, to, amount }) is Rejected <==> transferred(
            balances,
            Cmd::Transfer { from, to, amount },
        ) is None,
        transferred(balances, Cmd::Transfer { from, to, amount }) is Some ==> outcome(
            balances,
            Cmd::Transfer { from, to, amount },
        ) == (Evt::Transferred { from, to, amount }),
{
}

/// The bank is found fault with exactly where money was made or lost or an
/// account owes something.
pub proof fn law_complaints_are_justified(balances: Seq<i64>)
    ensures
        complaint(balances) is None <==> total(balances) == 8000 && forall|i: int|
            0 <= i < balances.len() ==> balances[i] >= 0,
{
    lemma_overdrawn(balances, 0);
}

proof fn lemma_overdrawn(balances: Seq<i64>, i: nat)
    requires
        i <= balances.len(),
    ensures
        overdrawn(balances, i) is None <==> forall|k: int|
            i <= k < balances.len() ==> balances[k] >= 0,
        overdrawn(balances, i) matches Some(b) ==> b < 0 && balances.contains(b),
    decreases balances.len() - i,
{
    if i < balances.len() {
        lemma_overdrawn(balances, i + 1);
        if balances[i as int] < 0 {
            assert(balances.contains(balances[i as int]));
        }
    }
}

/// A drawn transfer is between two of the eight accounts and moves less than 600.
pub proof fn law_drawn_transfers_are_small(state: u64)
    ensures
        drawn(state) matches Cmd::Transfer { from, to, amount } && from < 8 && to < 8 && amount
            < 600,
{
}

/// The bank opens with a thousand in each of its eight accounts.
pub proof fn law_bank_opens_in_order()
    ensures
        Bank::genesis_state(()) == ledger_bytes(seq![1000i64, 1000, 1000, 1000, 1000, 1000, 1000, 1000]),
{
    assert(Seq::new(8, |i: int| OPENING_BALANCE) =~= seq![
        1000i64,
        1000,
        1000,
        1000,
        1000,
        1000,
        1000,
        1000,
    ]);
}

} // verus!
