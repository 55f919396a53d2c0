//! The replicated machine: what a service and its timer wheel are after a
//! sequence of frames.
//!
//! A frame's effect depends on the frame and on the machine in front of it
//! alone, so every replica that reads the same frames is the same machine.

use vstd::prelude::*;

use crate::codec::collections::concat_bytes;
use crate::codec::{decode_all, parse_all, CodecError, Decode, Encode};
use crate::frame::{Frame, FrameKind, Record};
use crate::service::{all_encodable, encoded, Ctx, OutBuf, Service, TimerReq};
use crate::timer::{about, scheduled_all, wheel_list, TimerWheel, Wheel};

verus! {

broadcast use crate::le::lemma_le_bytes_len;

/// A service's state and the timers it has armed.
#[verifier::ext_equal]
pub struct Machine {
    pub state: Seq<u8>,
    pub wheel: Wheel,
}

/// The machine before any frame.
pub open spec fn genesis_machine<S: Service>(config: S::Config) -> Machine {
    Machine { state: S::genesis_state(config), wheel: Map::empty() }
}

/// The timer id that a timer frame's payload carries.
pub open spec fn fired_id(payload: Seq<u8>) -> Result<u64, CodecError> {
    match parse_all::<u64>(payload) {
        Ok(bytes) => Ok(crate::le::le_value(bytes) as u64),
        Err(e) => Err(e),
    }
}

/// The machine behind a frame and the outputs, as their bytes, that the frame
/// leads to. Inputs and fired timers run the service; every other kind of
/// frame leaves the machine as it is.
pub open spec fn feed<S: Service>(config: S::Config, m: Machine, f: Record) -> Result<
    (Machine, Seq<Seq<u8>>),
    CodecError,
> {
    match f.kind {
        FrameKind::Input => match parse_all::<S::Input>(f.payload) {
            Err(e) => Err(e),
            Ok(input) => {
                let step = S::step(config, m.state, f.seq, f.time, input);
                Ok(
                    (
                        Machine {
                            state: step.state,
                            wheel: scheduled_all(m.wheel, step.timers, f.seq),
                        },
                        step.outputs,
                    ),
                )
            },
        },
        FrameKind::TimerFired => match fired_id(f.payload) {
            Err(e) => Err(e),
            Ok(id) => {
                let step = S::timer_step(config, m.state, f.seq, f.time, id);
                Ok(
                    (
                        Machine {
                            state: step.state,
                            wheel: scheduled_all(m.wheel.remove(id), step.timers, f.seq),
                        },
                        step.outputs,
                    ),
                )
            },
        },
        _ => Ok((m, Seq::empty())),
    }
}

/// The machine after frames in order; where a payload does not decode, the
/// seq of the first such frame and the error.
pub open spec fn replay<S: Service>(config: S::Config, m: Machine, frames: Seq<Record>) -> Result<
    Machine,
    (u64, CodecError),
>
    decreases frames.len(),
{
    if frames.len() == 0 {
        Ok(m)
    } else {
        match replay::<S>(config, m, frames.drop_last()) {
            Err(e) => Err(e),
            Ok(before) => match feed::<S>(config, before, frames.last()) {
                Err(e) => Err((frames.last().seq, e)),
                Ok((after, _)) => Ok(after),
            },
        }
    }
}

/// The payload of a timer frame is the timer's id.
pub proof fn law_fired_id_reads_back(id: u64)
    ensures
        fired_id(id.bytes()) == Ok::<u64, CodecError>(id),
{
    crate::codec::law_encoding_is_accepted(id);
    crate::le::lemma_pow256_values();
    crate::le::law_le_value_of_bytes(id as nat, 8);
}

/// An input frame takes the service one step on, at the frame's own seq and time,
/// and puts out what the step does. A timer that the step arms last is pending at
/// its deadline under the frame's seq; one that the step says nothing of stays.
pub proof fn law_input_frame_steps_the_service<S: Service>(
    config: S::Config,
    m: Machine,
    f: Record,
    input: S::Input,
    k: int,
    id: u64,
)
    requires
        f.kind == FrameKind::Input,
        input.encodable(),
        f.payload == input.bytes(),
    ensures
        feed::<S>(config, m, f) is Ok,
        ({
            let (after, outputs) = feed::<S>(config, m, f)->Ok_0;
            let step = S::step(config, m.state, f.seq, f.time, input.bytes());
            &&& after.state == step.state
            &&& outputs == step.outputs
            &&& 0 <= k < step.timers.len() && about(step.timers[k]) == id && (forall|j: int|
                k < j < step.timers.len() ==> about(#[trigger] step.timers[j]) != id) ==> {
                &&& step.timers[k] matches TimerReq::Arm { at, .. } ==> after.wheel.contains_key(id)
                    && after.wheel[id] == (at.0, f.seq)
                &&& step.timers[k] is Cancel ==> !after.wheel.contains_key(id)
            }
            &&& (forall|j: int|
                0 <= j < step.timers.len() ==> about(#[trigger] step.timers[j]) != id) ==> (
            after.wheel.contains_key(id) <==> m.wheel.contains_key(id)) && (m.wheel.contains_key(id)
                ==> after.wheel[id] == m.wheel[id])
        }),
{
    crate::codec::law_encoding_is_accepted(input);
    let reqs = S::step(config, m.state, f.seq, f.time, input.bytes()).timers;
    lemma_requests_decide(m.wheel, reqs, f.seq, k, id);
}

proof fn lemma_requests_decide(wheel: Wheel, reqs: Seq<TimerReq>, set_at: u64, k: int, id: u64)
    ensures
        ({
            let after = scheduled_all(wheel, reqs, set_at);
            &&& 0 <= k < reqs.len() && about(reqs[k]) == id && (forall|j: int|
                k < j < reqs.len() ==> about(#[trigger] reqs[j]) != id) ==> {
                &&& reqs[k] matches TimerReq::Arm { at, .. } ==> after.contains_key(id)
                    && after[id] == (at.0, set_at)
                &&& reqs[k] is Cancel ==> !after.contains_key(id)
            }
            &&& (forall|j: int| 0 <= j < reqs.len() ==> about(#[trigger] reqs[j]) != id) ==> (
            after.contains_key(id) <==> wheel.contains_key(id)) && (wheel.contains_key(id)
                ==> after[id] == wheel[id])
        }),
{
    if 0 <= k < reqs.len() && about(reqs[k]) == id && (forall|j: int|
        k < j < reqs.len() ==> about(#[trigger] reqs[j]) != id) {
        crate::timer::law_last_request_decides(wheel, reqs, set_at, k, id);
    }
    if forall|j: int| 0 <= j < reqs.len() ==> about(#[trigger] reqs[j]) != id {
        assert forall|j: int| 0 <= j < reqs.len() implies !((#[trigger] reqs[j]) matches TimerReq::Arm {
            id: x,
            ..
        } && x == id) && !(reqs[j] matches TimerReq::Cancel { id: x } && x == id) by {
            assert(about(reqs[j]) != id);
        }
        crate::timer::law_other_timers_stay(wheel, reqs, set_at, id);
    }
}

/// A timer frame runs the service's timer step for the timer that it names, at
/// the frame's own seq and time. The timer is no longer pending, unless the step
/// arms it anew; other timers that the step says nothing of stay.
pub proof fn law_timer_frame_fires_its_timer<S: Service>(
    config: S::Config,
    m: Machine,
    f: Record,
    fired: u64,
    k: int,
    id: u64,
)
    requires
        f.kind == FrameKind::TimerFired,
        f.payload == fired.bytes(),
    ensures
        feed::<S>(config, m, f) is Ok,
        ({
            let (after, outputs) = feed::<S>(config, m, f)->Ok_0;
            let step = S::timer_step(config, m.state, f.seq, f.time, fired);
            &&& after.state == step.state
            &&& outputs == step.outputs
            &&& 0 <= k < step.timers.len() && about(step.timers[k]) == id && (forall|j: int|
                k < j < step.timers.len() ==> about(#[trigger] step.timers[j]) != id) ==> {
                &&& step.timers[k] matches TimerReq::Arm { at, .. } ==> after.wheel.contains_key(id)
                    && after.wheel[id] == (at.0, f.seq)
                &&& step.timers[k] is Cancel ==> !after.wheel.contains_key(id)
            }
            &&& (forall|j: int|
                0 <= j < step.timers.len() ==> about(#[trigger] step.timers[j]) != id) ==> (
            after.wheel.contains_key(id) <==> m.wheel.contains_key(id) && id != fired) && (
            after.wheel.contains_key(id) ==> after.wheel[id] == m.wheel[id])
        }),
{
    law_fired_id_reads_back(fired);
    let reqs = S::timer_step(config, m.state, f.seq, f.time, fired).timers;
    lemma_requests_decide(m.wheel.remove(fired), reqs, f.seq, k, id);
}

/// Frames of any other kind leave the machine and put nothing out, and a frame
/// whose payload does not decode is refused.
pub proof fn law_other_frames_change_nothing<S: Service>(config: S::Config, m: Machine, f: Record)
    ensures
        f.kind != FrameKind::Input && f.kind != FrameKind::TimerFired ==> feed::<S>(config, m, f)
            == Ok::<(Machine, Seq<Seq<u8>>), CodecError>((m, Seq::empty())),
        f.kind == FrameKind::Input ==> (parse_all::<S::Input>(f.payload) matches Err(e)
            ==> feed::<S>(config, m, f) == Err::<(Machine, Seq<Seq<u8>>), CodecError>(e)),
        f.kind == FrameKind::TimerFired ==> (parse_all::<u64>(f.payload) matches Err(e)
            ==> feed::<S>(config, m, f) == Err::<(Machine, Seq<Seq<u8>>), CodecError>(e)),
{
}

/// Replaying one frame is feeding it; a frame that is refused is told by its seq.
pub proof fn law_replay_feeds_frame_by_frame<S: Service>(config: S::Config, m: Machine, f: Record)
    ensures
        replay::<S>(config, m, Seq::empty()) == Ok::<Machine, (u64, CodecError)>(m),
        replay::<S>(config, m, seq![f]) == (match feed::<S>(config, m, f) {
            Ok((after, _)) => Ok::<Machine, (u64, CodecError)>(after),
            Err(e) => Err::<Machine, (u64, CodecError)>((f.seq, e)),
        }),
{
    assert(seq![f].drop_last() =~= Seq::empty());
    assert(replay::<S>(config, m, seq![f].drop_last()) == Ok::<Machine, (u64, CodecError)>(m));
}

/// A history begins with the service's first state and no timer.
pub proof fn law_history_begins_without_timers<S: Service>(config: S::Config, id: u64)
    ensures
        genesis_machine::<S>(config).state == S::genesis_state(config),
        !genesis_machine::<S>(config).wheel.contains_key(id),
{
}

/// A snapshot holds the number of timers, then each of them, then the state to
/// its end.
pub proof fn law_snapshot_holds_timers_then_state(m: Machine)
    requires
        wheel_list(m.wheel).len() <= u32::MAX,
    ensures
        machine_bytes(m).len() == 4 + 24 * wheel_list(m.wheel).len() + m.state.len(),
        machine_bytes(m).take(4) == crate::le::le_bytes(wheel_list(m.wheel).len(), 4),
        machine_bytes(m).skip(4 + 24 * wheel_list(m.wheel).len() as int) == m.state,
{
    lemma_list_len(wheel_list(m.wheel));
    assert(machine_bytes(m).take(4) =~= crate::le::le_bytes(wheel_list(m.wheel).len(), 4));
    assert(machine_bytes(m).skip(4 + 24 * wheel_list(m.wheel).len() as int) =~= m.state);
}

proof fn lemma_list_len(list: Seq<(u64, u64, u64)>)
    ensures
        concat_bytes(list).len() == 24 * list.len(),
    decreases list.len(),
{
    if list.len() > 0 {
        lemma_list_len(list.skip(1));
        assert(list[0].bytes().len() == 24);
    }
}

/// Replaying frames in two parts is replaying them at once.
pub proof fn law_replay_in_parts<S: Service>(
    config: S::Config,
    m: Machine,
    a: Seq<Record>,
    b: Seq<Record>,
)
    ensures
        replay::<S>(config, m, a + b) == (match replay::<S>(config, m, a) {
            Err(e) => Err::<Machine, (u64, CodecError)>(e),
            Ok(mid) => replay::<S>(config, mid, b),
        }),
    decreases b.len(),
{
    if b.len() == 0 {
        assert(a + b =~= a);
    } else {
        assert((a + b).drop_last() =~= a + b.drop_last());
        law_replay_in_parts::<S>(config, m, a, b.drop_last());
    }
}

/// The bytes of a wheel's list of timers.
pub open spec fn wheel_bytes(list: Seq<(u64, u64, u64)>) -> Seq<u8> {
    crate::le::le_bytes(list.len(), 4) + concat_bytes(list)
}

/// The bytes of a machine in a snapshot: its timers, then its state.
pub open spec fn machine_bytes(m: Machine) -> Seq<u8> {
    wheel_bytes(wheel_list(m.wheel)) + m.state
}

/// The timers that a list's bytes stand for.
pub open spec fn timers_of(bytes: Seq<u8>) -> Seq<(u64, u64, u64)> {
    choose|list: Seq<(u64, u64, u64)>|
        list.len() <= u32::MAX && #[trigger] wheel_bytes(list) == bytes
}

/// The machine that a snapshot payload restores to; nothing where it does not
/// decode.
pub open spec fn restored_machine<S: Service>(config: S::Config, payload: Seq<u8>) -> Option<
    Machine,
> {
    match Vec::<(u64, u64, u64)>::parse(payload) {
        Err(_) => None,
        Ok((timers, n)) => match parse_all::<S::Snapshot>(payload.skip(n as int)) {
            Err(_) => None,
            Ok(state) => Some(
                Machine {
                    state: S::restored(config, state),
                    wheel: crate::timer::rebuilt(timers_of(timers)),
                },
            ),
        },
    }
}

/// Timer lists with the same bytes are the same.
pub proof fn lemma_wheel_bytes_injective(
    a: Seq<(u64, u64, u64)>,
    b: Seq<(u64, u64, u64)>,
)
    requires
        a.len() <= u32::MAX,
        b.len() <= u32::MAX,
        wheel_bytes(a) == wheel_bytes(b),
    ensures
        a == b,
{
    crate::le::lemma_pow256_values();
    assert(wheel_bytes(a).take(4) =~= crate::le::le_bytes(a.len(), 4));
    assert(wheel_bytes(b).take(4) =~= crate::le::le_bytes(b.len(), 4));
    crate::le::lemma_le_bytes_injective(a.len(), b.len(), 4);
    assert(wheel_bytes(a).skip(4) =~= concat_bytes(a));
    assert(wheel_bytes(b).skip(4) =~= concat_bytes(b));
    crate::codec::collections::lemma_items_canonical(a, b);
    assert forall|i: int| 0 <= i < a.len() implies a[i] == b[i] by {
        assert(a[i].same(&b[i]));
    }
    assert(a =~= b);
}

/// A machine comes back from its snapshot bytes.
pub proof fn law_machine_roundtrip<S: Service>(service: S, wheel: Wheel)
    requires
        exists|list: Seq<(u64, u64, u64)>| crate::timer::is_wheel_list(list, wheel),
        wheel_list(wheel).len() <= u32::MAX,
        exists|snap: S::Snapshot| #[trigger] snap.encodable() && snap.bytes() == service.state(),
    ensures
        restored_machine::<S>(
            service.config(),
            machine_bytes(Machine { state: service.state(), wheel }),
        ) == Some(Machine { state: service.state(), wheel }),
{
    let list = wheel_list(wheel);
    let m = Machine { state: service.state(), wheel };
    let payload = machine_bytes(m);
    let snap = choose|snap: S::Snapshot| #[trigger]
        snap.encodable() && snap.bytes() == service.state();
    crate::le::lemma_pow256_values();
    crate::le::law_le_value_of_bytes(list.len(), 4);
    assert(payload.take(4) =~= crate::le::le_bytes(list.len(), 4));
    assert(payload.skip(4) =~= concat_bytes(list) + m.state);
    crate::codec::collections::lemma_parse_items(list, m.state);
    let timers = wheel_bytes(list);
    assert(Vec::<(u64, u64, u64)>::parse(payload) == Ok::<(Seq<u8>, nat), CodecError>(
        (timers, timers.len()),
    ));
    assert(payload.skip(timers.len() as int) =~= m.state);
    crate::codec::law_encoding_is_accepted(snap);
    assert(wheel_bytes(list) == timers);
    lemma_wheel_bytes_injective(list, timers_of(timers));
    crate::timer::law_restore_inverts_snapshot(list, wheel);
    service.law_restore_inverts_snapshot();
}

/// Applies one frame to a service and its wheel.
pub fn apply_frame<S: Service>(
    service: &mut S,
    wheel: &mut TimerWheel,
    frame: &Frame,
    outputs: &mut OutBuf<S::Output>,
) -> (r: Result<(), CodecError>)
    requires
        old(outputs)@.len() == 0,
    ensures
        final(service).config() == old(service).config(),
        all_encodable(final(outputs)@),
        match feed::<S>(
            old(service).config(),
            Machine { state: old(service).state(), wheel: old(wheel)@ },
            frame@,
        ) {
            Ok((after, out)) => {
                &&& r is Ok
                &&& after == (Machine { state: final(service).state(), wheel: final(wheel)@ })
                &&& encoded(final(outputs)@) == out
            },
            Err(e) => {
                &&& r == Err::<(), CodecError>(e)
                &&& *final(service) == *old(service)
                &&& final(wheel)@ == old(wheel)@
                &&& final(outputs)@.len() == 0
            },
        },
{
    let mut reqs: Vec<TimerReq> = Vec::new();
    assert(encoded(outputs@) =~= Seq::<Seq<u8>>::empty());
    match frame.kind {
        FrameKind::Input => {
            let input: S::Input = decode_all(frame.payload.as_slice())?;
            let ghost step = S::step(
                service.config(),
                service.state(),
                frame@.seq,
                frame@.time,
                input.bytes(),
            );
            let mut ctx = Ctx::new(frame.seq, frame.timestamp, outputs, &mut reqs);
            service.apply(frame.seq, &input, &mut ctx);
            assert(reqs@ =~= step.timers);
            assert(encoded(outputs@) =~= step.outputs);
            wheel.apply_all(&reqs, frame.seq);
        },
        FrameKind::TimerFired => {
            let id: u64 = decode_all::<u64>(frame.payload.as_slice())?;
            proof {
                crate::le::lemma_pow256_values();
                crate::le::law_le_value_of_bytes(id as nat, 8);
            }
            let ghost step = S::timer_step(
                service.config(),
                service.state(),
                frame@.seq,
                frame@.time,
                id,
            );
            wheel.cancel(id);
            let mut ctx = Ctx::new(frame.seq, frame.timestamp, outputs, &mut reqs);
            service.on_timer(id, &mut ctx);
            assert(reqs@ =~= step.timers);
            assert(encoded(outputs@) =~= step.outputs);
            wheel.apply_all(&reqs, frame.seq);
        },
        _ => {
            assert(encoded(outputs@) =~= Seq::<Seq<u8>>::empty());
        },
    }
    Ok(())
}

/// Rebuilds a service and its wheel from a snapshot payload; nothing where it
/// does not decode.
pub fn restore_machine<S: Service>(payload: &[u8], config: &S::Config) -> (r: Option<
    (S, TimerWheel),
>)
    ensures
        match r {
            Some((service, wheel)) => {
                &&& service.config() == *config
                &&& restored_machine::<S>(*config, payload@) == Some(
                    Machine { state: service.state(), wheel: wheel@ },
                )
            },
            None => restored_machine::<S>(*config, payload@) is None,
        },
{
    let mut rest: &[u8] = payload;
    let timers = match Vec::<(u64, u64, u64)>::decode(&mut rest) {
        Ok(t) => t,
        Err(_) => {
            return None;
        },
    };
    let snap = match decode_all::<S::Snapshot>(rest) {
        Ok(s) => s,
        Err(_) => {
            return None;
        },
    };
    proof {
        assert(wheel_bytes(timers@) =~= timers.bytes());
        lemma_wheel_bytes_injective(timers@, timers_of(timers.bytes()));
    }
    let service = S::restore(snap, config);
    let wheel = TimerWheel::restore(timers);
    Some((service, wheel))
}

} // verus!
