//! What a recovered node is held against.

use vstd::prelude::*;
use vstd::string::StringExecFns;

use crate::codec::{decode_all, parse_all, CodecError, Encode};
use crate::frame::{Frame, FrameKind, Record};
use crate::journal::records;
use crate::message::codec_text;
use crate::seq::{SeqNo, Timestamp};
use crate::service::{Ctx, OutBuf, Service, TimerReq};
use crate::sim::{InvariantViolation, Invariants};
use crate::text::{decimal, push_decimal, text};

verus! {

/// What the journal should hold for one sequenced frame.
#[derive(Debug)]
pub struct Expected {
    pub kind: FrameKind,
    pub time: Timestamp,
    pub payload: Vec<u8>,
}

/// What an [`Expected`] says.
#[verifier::ext_equal]
pub struct Entry {
    pub kind: FrameKind,
    pub time: u64,
    pub payload: Seq<u8>,
}

impl View for Expected {
    type V = Entry;

    open spec fn view(&self) -> Entry {
        Entry { kind: self.kind, time: self.time.0, payload: self.payload@ }
    }
}

/// What each says.
pub open spec fn entries(items: Seq<Expected>) -> Seq<Entry> {
    items.map_values(|e: Expected| e@)
}

/// The frame is the submitted one: of an input the payload counts, of other
/// frames the kind alone.
pub open spec fn answers(f: Record, e: Entry) -> bool {
    f.kind == e.kind && (e.kind == FrameKind::Input ==> f.payload == e.payload)
}

/// The first of the frames from `i` on that is out of order or not what was
/// submitted.
pub open spec fn mismatch(
    expected: Seq<Entry>,
    first: u64,
    survivors: Seq<Record>,
    i: nat,
) -> Option<Seq<char>>
    decreases survivors.len() - i,
{
    if i >= survivors.len() {
        None
    } else if survivors[i as int].seq != first + i {
        Some(
            "total order broken: frame "@ + decimal(i) + " has seq "@ + decimal(
                survivors[i as int].seq as nat,
            ),
        )
    } else if !answers(survivors[i as int], expected[first + i - 1]) {
        Some(
            "journal frame at seq "@ + decimal(survivors[i as int].seq as nat)
                + " does not match the submitted input"@,
        )
    } else {
        mismatch(expected, first, survivors, i + 1)
    }
}

/// What is wrong with the frames that came through, if something is. The
/// journal starts at seq `first`.
pub open spec fn divergence(
    expected: Seq<Entry>,
    synced: nat,
    recovered: u64,
    first: u64,
    survivors: Seq<Record>,
) -> Option<Seq<char>> {
    if recovered < synced {
        Some(
            "durability violated: "@ + decimal(synced) + " frames were synced but only "@
                + decimal(recovered as nat) + " survived"@,
        )
    } else if recovered > expected.len() {
        Some(
            "phantom frames: "@ + decimal(expected.len()) + " submitted, "@ + decimal(
                recovered as nat,
            ) + " recovered"@,
        )
    } else if first < 1 || first - 1 + survivors.len() != recovered {
        Some(
            "node recovered seq "@ + decimal(recovered as nat) + " but journal holds "@ + decimal(
                survivors.len(),
            ) + " frames"@,
        )
    } else {
        mismatch(expected, first, survivors, 0)
    }
}

/// Holds the frames that came through against what was submitted: nothing
/// that was synced is missing, nothing was added, and each frame stands in
/// its place.
pub fn compare(
    expected: &Vec<Expected>,
    synced: usize,
    recovered: SeqNo,
    first: SeqNo,
    survivors: &Vec<Frame>,
) -> (r: Result<(), InvariantViolation>)
    ensures
        match divergence(
            entries(expected@),
            synced as nat,
            recovered.0,
            first.0,
            records(survivors@),
        ) {
            None => r is Ok,
            Some(what) => r is Err && r->Err_0.what@ == what,
        },
{
    let ghost e = entries(expected@);
    let ghost s = records(survivors@);
    let submitted: usize = expected.len();
    let n: usize = survivors.len();
    if recovered.0 < synced as u64 {
        let mut out = text("durability violated: ");
        push_decimal(&mut out, synced as u64);
        out.append(" frames were synced but only ");
        push_decimal(&mut out, recovered.0);
        out.append(" survived");
        return Err(InvariantViolation::new(out));
    }
    if recovered.0 > submitted as u64 {
        let mut out = text("phantom frames: ");
        push_decimal(&mut out, submitted as u64);
        out.append(" submitted, ");
        push_decimal(&mut out, recovered.0);
        out.append(" recovered");
        return Err(InvariantViolation::new(out));
    }
    if first.0 < 1 || first.0 - 1 > recovered.0 || (recovered.0 - (first.0 - 1)) != n as u64 {
        let mut out = text("node recovered seq ");
        push_decimal(&mut out, recovered.0);
        out.append(" but journal holds ");
        push_decimal(&mut out, n as u64);
        out.append(" frames");
        return Err(InvariantViolation::new(out));
    }
    let mut i: usize = 0;
    while i < n
        invariant
            i <= n == survivors@.len(),
            e == entries(expected@),
            s == records(survivors@),
            1 <= first.0,
            first.0 - 1 + n == recovered.0 <= submitted,
            submitted == expected@.len(),
            synced <= recovered.0,
            mismatch(e, first.0, s, 0) == mismatch(e, first.0, s, i as nat),
            divergence(e, synced as nat, recovered.0, first.0, s) == mismatch(e, first.0, s, 0),
        decreases n - i,
    {
        let frame = &survivors[i];
        assert(s[i as int] == frame@);
        let seq: u64 = first.0 + i as u64;
        if frame.seq.0 != seq {
            let mut out = text("total order broken: frame ");
            push_decimal(&mut out, i as u64);
            out.append(" has seq ");
            push_decimal(&mut out, frame.seq.0);
            return Err(InvariantViolation::new(out));
        }
        let entry = &expected[(seq - 1) as usize];
        assert(e[first.0 + i - 1] == entry@);
        let good: bool = frame.kind == entry.kind && (entry.kind != FrameKind::Input
            || crate::paths::same_bytes(frame.payload.as_slice(), entry.payload.as_slice()));
        if !good {
            let mut out = text("journal frame at seq ");
            push_decimal(&mut out, frame.seq.0);
            out.append(" does not match the submitted input");
            return Err(InvariantViolation::new(out));
        }
        i = i + 1;
    }
    Ok(())
}

/// The submitted frame at seq `i + 1`.
pub open spec fn submitted(expected: Seq<Entry>, i: int) -> Record {
    Record {
        seq: (i + 1) as u64,
        time: expected[i].time,
        stream_id: 1,
        kind: expected[i].kind,
        payload: expected[i].payload,
    }
}

/// All frames up to where the journal ends: those that the journal, which
/// starts at `first`, no longer holds are taken from what was submitted.
pub open spec fn full(expected: Seq<Entry>, first: u64, survivors: Seq<Record>) -> Seq<Record> {
    Seq::new((first - 1) as nat, |i: int| submitted(expected, i)) + survivors
}

/// The state that the inputs among `frames` lead to from genesis, timers left
/// aside; where one does not decode, its seq and the error.
pub open spec fn rerun<S: Service>(config: S::Config, frames: Seq<Record>) -> Result<
    Seq<u8>,
    (u64, CodecError),
>
    decreases frames.len(),
{
    if frames.len() == 0 {
        Ok(S::genesis_state(config))
    } else {
        let f = frames.last();
        match rerun::<S>(config, frames.drop_last()) {
            Err(e) => Err(e),
            Ok(state) => if f.kind != FrameKind::Input {
                Ok(state)
            } else {
                match parse_all::<S::Input>(f.payload) {
                    Err(e) => Err((f.seq, e)),
                    Ok(input) => Ok(S::step(config, state, f.seq, f.time, input).state),
                }
            },
        }
    }
}

/// An error on the way is the error of the whole.
proof fn lemma_rerun_error<S: Service>(config: S::Config, frames: Seq<Record>, k: nat)
    requires
        k <= frames.len(),
        rerun::<S>(config, frames.take(k as int)) is Err,
    ensures
        rerun::<S>(config, frames) == rerun::<S>(config, frames.take(k as int)),
    decreases frames.len() - k,
{
    if k == frames.len() {
        assert(frames.take(k as int) =~= frames);
    } else {
        assert(frames.take((k + 1) as int).drop_last() =~= frames.take(k as int));
        lemma_rerun_error::<S>(config, frames, k + 1);
    }
}

/// Applies one input to a service that runs aside.
fn step_aside<S: Service>(service: &mut S, seq: SeqNo, time: Timestamp, payload: &[u8]) -> (r:
    Result<(), CodecError>)
    ensures
        final(service).config() == old(service).config(),
        match parse_all::<S::Input>(payload@) {
            Err(e) => r == Err::<(), CodecError>(e),
            Ok(input) => r is Ok && final(service).state() == S::step(
                old(service).config(),
                old(service).state(),
                seq.0,
                time.0,
                input,
            ).state,
        },
{
    let input: S::Input = decode_all(payload)?;
    let mut outputs: OutBuf<S::Output> = OutBuf::new();
    let mut timers: Vec<TimerReq> = Vec::new();
    let mut ctx = Ctx::new(seq, time, &mut outputs, &mut timers);
    service.apply(seq, &input, &mut ctx);
    Ok(())
}

/// Runs the inputs again in a fresh service.
fn replay_aside<S: Service>(
    config: &S::Config,
    expected: &Vec<Expected>,
    first: SeqNo,
    survivors: &Vec<Frame>,
) -> (r: Result<S, InvariantViolation>)
    requires
        1 <= first.0,
        first.0 - 1 <= expected@.len(),
    ensures
        match rerun::<S>(*config, full(entries(expected@), first.0, records(survivors@))) {
            Ok(state) => r is Ok && r->Ok_0.config() == *config && r->Ok_0.state() == state,
            Err((seq, e)) => r is Err && r->Err_0.what@ == undecodable(seq, e),
        },
{
    let ghost all = full(entries(expected@), first.0, records(survivors@));
    let submitted: usize = expected.len();
    assert(first.0 - 1 <= submitted);
    let front: usize = (first.0 - 1) as usize;
    let n: usize = survivors.len();
    let mut fresh = S::genesis(config);
    assert(all.take(0) =~= Seq::<Record>::empty());
    let mut i: usize = 0;
    while i < front
        invariant
            i <= front == first.0 - 1,
            front <= submitted == expected@.len(),
            all == full(entries(expected@), first.0, records(survivors@)),
            fresh.config() == *config,
            rerun::<S>(*config, all.take(i as int)) == Ok::<Seq<u8>, (u64, CodecError)>(
                fresh.state(),
            ),
        decreases front - i,
    {
        let entry = &expected[i];
        proof {
            assert(all.take(i + 1).drop_last() =~= all.take(i as int));
            assert(all.take(i + 1).last() == self::submitted(entries(expected@), i as int));
        }
        if entry.kind == FrameKind::Input {
            let seq = SeqNo(i as u64 + 1);
            if let Err(e) = step_aside(&mut fresh, seq, entry.time, entry.payload.as_slice()) {
                proof {
                    lemma_rerun_error::<S>(*config, all, (i + 1) as nat);
                }
                return Err(undecodable_violation(seq, &e));
            }
        }
        i = i + 1;
    }
    let mut j: usize = 0;
    while j < n
        invariant
            j <= n == survivors@.len(),
            front == first.0 - 1,
            all == full(entries(expected@), first.0, records(survivors@)),
            fresh.config() == *config,
            rerun::<S>(*config, all.take(front + j)) == Ok::<Seq<u8>, (u64, CodecError)>(
                fresh.state(),
            ),
        decreases n - j,
    {
        let frame = &survivors[j];
        proof {
            assert(all.take(front + j + 1).drop_last() =~= all.take(front + j));
            assert(all.take(front + j + 1).last() == frame@);
        }
        if frame.kind == FrameKind::Input {
            if let Err(e) = step_aside(
                &mut fresh,
                frame.seq,
                frame.timestamp,
                frame.payload.as_slice(),
            ) {
                proof {
                    lemma_rerun_error::<S>(*config, all, (front + j + 1) as nat);
                }
                return Err(undecodable_violation(frame.seq, &e));
            }
        }
        j = j + 1;
    }
    assert(all.take(front + n) =~= all);
    Ok(fresh)
}

/// What is said of a journaled input that does not decode.
pub open spec fn undecodable(seq: u64, e: CodecError) -> Seq<char> {
    "journaled input no longer decodes at seq "@ + decimal(seq as nat) + ": "@ + codec_text(e)
}

fn undecodable_violation(seq: SeqNo, e: &CodecError) -> (r: InvariantViolation)
    ensures
        r.what@ == undecodable(seq.0, *e),
{
    let mut out = text("journaled input no longer decodes at seq ");
    push_decimal(&mut out, seq.0);
    out.append(": ");
    out.append(e.message().as_str());
    InvariantViolation::new(out)
}

/// What is said where a replay ends in another state.
pub open spec fn diverged() -> Seq<char> {
    "determinism violated: recovered state does not byte-match an independent replay of the same inputs (ambient state, nondeterministic iteration, or clock leak?)"@
}

/// What is wrong with a recovered node in state `state`, if something is.
pub open spec fn charge<S: Invariants>(
    config: S::Config,
    expected: Seq<Entry>,
    synced: nat,
    recovered: u64,
    first: u64,
    survivors: Seq<Record>,
    state: Seq<u8>,
) -> Option<Seq<char>> {
    match divergence(expected, synced, recovered, first, survivors) {
        Some(what) => Some(what),
        None => match rerun::<S>(config, full(expected, first, survivors)) {
            Err((seq, e)) => Some(undecodable(seq, e)),
            Ok(replayed) => if replayed != state {
                Some(diverged())
            } else {
                S::verdict(config, state)
            },
        },
    }
}

/// The full checklist for a recovered service: durability, total order,
/// determinism and the service's own invariants.
pub fn judge<S: Invariants>(
    config: &S::Config,
    expected: &Vec<Expected>,
    synced: usize,
    recovered: SeqNo,
    first: SeqNo,
    survivors: &Vec<Frame>,
    service: &S,
) -> (r: Result<(), InvariantViolation>)
    requires
        service.config() == *config,
    ensures
        match charge::<S>(
            *config,
            entries(expected@),
            synced as nat,
            recovered.0,
            first.0,
            records(survivors@),
            service.state(),
        ) {
            None => r is Ok,
            Some(what) => r is Err && r->Err_0.what@ == what,
        },
{
    compare(expected, synced, recovered, first, survivors)?;
    let fresh: S = replay_aside(config, expected, first, survivors)?;
    let mut live: Vec<u8> = Vec::new();
    let mut replayed: Vec<u8> = Vec::new();
    service.snapshot().encode(&mut live);
    fresh.snapshot().encode(&mut replayed);
    assert(live@ =~= service.state());
    assert(replayed@ =~= fresh.state());
    if !crate::paths::same_bytes(live.as_slice(), replayed.as_slice()) {
        return Err(
            InvariantViolation::new(
                text(
                    "determinism violated: recovered state does not byte-match an independent replay of the same inputs (ambient state, nondeterministic iteration, or clock leak?)",
                ),
            ),
        );
    }
    service.check()
}

/// Nothing is found out of place among frames exactly where each has the seq of
/// its place, is of the kind that was submitted there and, for an input, carries
/// what was submitted.
proof fn lemma_mismatch(expected: Seq<Entry>, first: u64, survivors: Seq<Record>, i: nat)
    requires
        i <= survivors.len(),
    ensures
        mismatch(expected, first, survivors, i) is None <==> forall|k: int|
            i <= k < survivors.len() ==> {
                &&& (#[trigger] survivors[k]).seq == first + k
                &&& survivors[k].kind == expected[first + k - 1].kind
                &&& survivors[k].kind == FrameKind::Input ==> survivors[k].payload
                    == expected[first + k - 1].payload
            },
    decreases survivors.len() - i,
{
    if i < survivors.len() {
        lemma_mismatch(expected, first, survivors, i + 1);
        let here = survivors[i as int];
        if mismatch(expected, first, survivors, i) is None {
            assert forall|k: int| i <= k < survivors.len() implies {
                &&& (#[trigger] survivors[k]).seq == first + k
                &&& survivors[k].kind == expected[first + k - 1].kind
                &&& survivors[k].kind == FrameKind::Input ==> survivors[k].payload
                    == expected[first + k - 1].payload
            } by {
                if k == i {
                    assert(here == survivors[k]);
                }
            }
        } else if here.seq != first + i {
            assert(survivors[i as int].seq != first + i);
        } else if !answers(here, expected[first + i - 1]) {
            assert(survivors[i as int] == here);
        }
    }
}

/// A recovered node is found fault with exactly where it lost a frame that was
/// synced, has a frame that was never submitted, has another number of frames
/// than its seq tells, or has a frame that is out of order or not the one that
/// was submitted.
pub proof fn law_no_fault_means_the_submitted_frames(
    expected: Seq<Entry>,
    synced: nat,
    recovered: u64,
    first: u64,
    survivors: Seq<Record>,
)
    ensures
        divergence(expected, synced, recovered, first, survivors) is None <==> {
            &&& synced <= recovered <= expected.len()
            &&& first >= 1
            &&& first - 1 + survivors.len() == recovered
            &&& forall|k: int|
                0 <= k < survivors.len() ==> {
                    &&& (#[trigger] survivors[k]).seq == first + k
                    &&& survivors[k].kind == expected[first + k - 1].kind
                    &&& survivors[k].kind == FrameKind::Input ==> survivors[k].payload
                        == expected[first + k - 1].payload
                }
        },
{
    lemma_mismatch(expected, first, survivors, 0);
}

/// A recovered node passes exactly where its frames are the submitted ones, its
/// state is the one that they lead to from the beginning, and the service finds
/// no fault with that state.
pub proof fn law_passing_means_the_replayed_state<S: Invariants>(
    config: S::Config,
    expected: Seq<Entry>,
    synced: nat,
    recovered: u64,
    first: u64,
    survivors: Seq<Record>,
    state: Seq<u8>,
)
    ensures
        charge::<S>(config, expected, synced, recovered, first, survivors, state) is None <==> {
            &&& divergence(expected, synced, recovered, first, survivors) is None
            &&& rerun::<S>(config, full(expected, first, survivors)) == Ok::<
                Seq<u8>,
                (u64, CodecError),
            >(state)
            &&& S::verdict(config, state) is None
        },
{
}

/// The independent replay starts from genesis and steps the service by every
/// input, at the frame's seq and time, and by nothing else.
pub proof fn law_rerun_steps_by_inputs<S: Service>(
    config: S::Config,
    frames: Seq<Record>,
    f: Record,
    input: S::Input,
)
    ensures
        rerun::<S>(config, Seq::empty()) == Ok::<Seq<u8>, (u64, CodecError)>(
            S::genesis_state(config),
        ),
        f.kind != FrameKind::Input ==> rerun::<S>(config, frames.push(f)) == rerun::<S>(
            config,
            frames,
        ),
        f.kind == FrameKind::Input && input.encodable() && f.payload == input.bytes() ==> (
        rerun::<S>(config, frames) matches Ok(state) ==> rerun::<S>(config, frames.push(f)) == Ok::<
            Seq<u8>,
            (u64, CodecError),
        >(S::step(config, state, f.seq, f.time, f.payload).state)),
        f.kind == FrameKind::Input ==> (parse_all::<S::Input>(f.payload) matches Err(e) ==> (
        rerun::<S>(config, frames) is Ok ==> rerun::<S>(config, frames.push(f)) == Err::<
            Seq<u8>,
            (u64, CodecError),
        >((f.seq, e)))),
{
    assert(frames.push(f).drop_last() =~= frames);
    if input.encodable() {
        crate::codec::law_encoding_is_accepted(input);
    }
}

/// What the journal no longer holds is taken from what was submitted, each frame
/// under its own seq; behind it stand the frames that the journal holds.
pub proof fn law_lost_front_is_filled_in(
    expected: Seq<Entry>,
    first: u64,
    survivors: Seq<Record>,
    i: int,
)
    requires
        1 <= first <= expected.len() + 1,
    ensures
        full(expected, first, survivors).len() == first - 1 + survivors.len(),
        0 <= i < first - 1 ==> {
            let f = full(expected, first, survivors)[i];
            &&& f.seq == i + 1
            &&& f.time == expected[i].time
            &&& f.kind == expected[i].kind
            &&& f.payload == expected[i].payload
        },
        first - 1 <= i < first - 1 + survivors.len() ==> full(expected, first, survivors)[i]
            == survivors[i - (first - 1)],
{
}

/// Of several frames that are wrong the first is told of: by its place and its seq
/// where it is out of order, and else by its seq.
pub proof fn law_first_wrong_frame_is_told(
    expected: Seq<Entry>,
    first: u64,
    survivors: Seq<Record>,
    i: nat,
    k: nat,
)
    requires
        i <= k < survivors.len(),
        forall|j: int|
            i <= j < k ==> (#[trigger] survivors[j]).seq == first + j && answers(
                survivors[j],
                expected[first + j - 1],
            ),
    ensures
        survivors[k as int].seq != first + k ==> mismatch(expected, first, survivors, i) == Some(
            "total order broken: frame "@ + decimal(k) + " has seq "@ + decimal(
                survivors[k as int].seq as nat,
            ),
        ),
        survivors[k as int].seq == first + k && !answers(
            survivors[k as int],
            expected[first + k - 1],
        ) ==> mismatch(expected, first, survivors, i) == Some(
            "journal frame at seq "@ + decimal(first as nat + k)
                + " does not match the submitted input"@,
        ),
    decreases k - i,
{
    if i < k {
        law_first_wrong_frame_is_told(expected, first, survivors, i + 1, k);
    }
}

} // verus!
