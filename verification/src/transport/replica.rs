//! A follower: consumes the in-order sequenced stream into its own copy of
//! the service. Ship the ordered inputs, recompute identical state; a promoted
//! standby is the service.

use vstd::prelude::*;

use crate::codec::{decode_all, parse_all, CodecError, Encode};
use crate::frame::{Frame, FrameKind, Record};
use crate::machine::{feed, fired_id, Machine};
use crate::seq::SeqNo;
use crate::service::{all_encodable, encoded, Ctx, OutBuf, Service, TimerReq};

verus! {

#[derive(Debug)]
pub enum ReplicaError {
    /// The stream handed over a frame out of order: the transport must deliver
    /// gapless.
    OutOfOrder { expected: SeqNo, got: SeqNo },
    /// An input frame does not decode.
    CorruptInput { seq: SeqNo, err: CodecError },
    /// The stream's leader declared an input-schema version in its fence that
    /// differs from this replica's.
    SchemaMismatch { theirs: u32, ours: u32, seq: SeqNo },
}

/// What following one frame in its order leads to: the state behind it and
/// the outputs as their bytes, or the error.
pub open spec fn followed<S: Service>(config: S::Config, state: Seq<u8>, f: Record) -> Result<
    (Seq<u8>, Seq<Seq<u8>>),
    ReplicaError,
> {
    match f.kind {
        FrameKind::Input => match parse_all::<S::Input>(f.payload) {
            Err(err) => Err(ReplicaError::CorruptInput { seq: SeqNo(f.seq), err }),
            Ok(input) => {
                let step = S::step(config, state, f.seq, f.time, input);
                Ok((step.state, step.outputs))
            },
        },
        FrameKind::TimerFired => match fired_id(f.payload) {
            Err(err) => Err(ReplicaError::CorruptInput { seq: SeqNo(f.seq), err }),
            Ok(id) => {
                let step = S::timer_step(config, state, f.seq, f.time, id);
                Ok((step.state, step.outputs))
            },
        },
        FrameKind::EpochChange => if f.payload.len() < 20 {
            Ok((state, Seq::empty()))
        } else {
            match crate::epoch::read_fence(f.payload) {
                Err(err) => Err(ReplicaError::CorruptInput { seq: SeqNo(f.seq), err }),
                Ok(fence) => if fence.schema_version != S::SCHEMA_VERSION {
                    Err(
                        ReplicaError::SchemaMismatch {
                            theirs: fence.schema_version,
                            ours: S::SCHEMA_VERSION,
                            seq: SeqNo(f.seq),
                        },
                    )
                } else {
                    Ok((state, Seq::empty()))
                },
            }
        },
        _ => Ok((state, Seq::empty())),
    }
}

/// A replica in the leader's state that follows what the leader executed is in
/// the leader's state again, and puts out the same.
pub proof fn law_replica_mirrors_the_leader<S: Service>(config: S::Config, m: Machine, f: Record)
    requires
        feed::<S>(config, m, f) is Ok,
        f.kind != FrameKind::EpochChange,
    ensures
        followed::<S>(config, m.state, f) == Ok::<(Seq<u8>, Seq<Seq<u8>>), ReplicaError>(
            ((feed::<S>(config, m, f)->Ok_0).0.state, (feed::<S>(config, m, f)->Ok_0).1),
        ),
{
}

/// The fence of a leader with another schema version is refused; that of one
/// with the same version changes nothing.
pub proof fn law_fence_guards_the_schema<S: Service>(
    config: S::Config,
    state: Seq<u8>,
    f: Record,
    fence: crate::epoch::EpochChange,
)
    requires
        f.kind == FrameKind::EpochChange,
        f.payload == crate::epoch::fence_payload(fence),
    ensures
        fence.schema_version == S::SCHEMA_VERSION ==> followed::<S>(config, state, f) == Ok::<
            (Seq<u8>, Seq<Seq<u8>>),
            ReplicaError,
        >((state, Seq::empty())),
        fence.schema_version != S::SCHEMA_VERSION ==> followed::<S>(config, state, f) == Err::<
            (Seq<u8>, Seq<Seq<u8>>),
            ReplicaError,
        >(
            ReplicaError::SchemaMismatch {
                theirs: fence.schema_version,
                ours: S::SCHEMA_VERSION,
                seq: SeqNo(f.seq),
            },
        ),
{
    crate::epoch::law_fence_roundtrip(fence);
}

/// A deterministic follower of the sequenced stream. It mirrors the timer
/// frames that the leader journals and runs no scheduler of its own, so timers
/// that the service arms here have no effect.
pub struct Replica<S: Service> {
    service: S,
    seq: SeqNo,
}

impl<S: Service> Replica<S> {
    pub closed spec fn config(&self) -> S::Config {
        self.service.config()
    }

    pub closed spec fn state(&self) -> Seq<u8> {
        self.service.state()
    }

    /// The seq of the last applied frame.
    pub closed spec fn tip(&self) -> u64 {
        self.seq.0
    }

    pub fn new(config: &S::Config) -> (r: Self)
        ensures
            r.config() == *config,
            r.state() == S::genesis_state(*config),
            r.tip() == 0,
    {
        Replica { service: S::genesis(config), seq: SeqNo(0) }
    }

    /// Resumes from a snapshot taken at `seq`: the stream goes on behind it.
    pub fn from_snapshot(snapshot: S::Snapshot, seq: SeqNo, config: &S::Config) -> (r: Self)
        requires
            snapshot.encodable(),
        ensures
            r.config() == *config,
            r.state() == S::restored(*config, snapshot.bytes()),
            r.tip() == seq.0,
    {
        Replica { service: S::restore(snapshot, config), seq }
    }

    /// Applies one in-order frame. Inputs and fired timers step the state
    /// machine; a fence is held against the schema version; every other frame
    /// just advances the seq. Returns the outputs.
    pub fn apply(&mut self, frame: &Frame) -> (r: Result<Vec<S::Output>, ReplicaError>)
        requires
            old(self).tip() < u64::MAX,
        ensures
            final(self).config() == old(self).config(),
            frame@.seq != old(self).tip() + 1 ==> {
                &&& *final(self) == *old(self)
                &&& r == Err::<Vec<S::Output>, ReplicaError>(
                    ReplicaError::OutOfOrder {
                        expected: SeqNo((old(self).tip() + 1) as u64),
                        got: SeqNo(frame@.seq),
                    },
                )
            },
            frame@.seq == old(self).tip() + 1 ==> final(self).tip() == frame@.seq && match followed::<
                S,
            >(old(self).config(), old(self).state(), frame@) {
                Ok((state, out)) => final(self).state() == state && (r matches Ok(o) && encoded(o@)
                    == out && all_encodable(o@)),
                Err(e) => final(self).state() == old(self).state() && r == Err::<
                    Vec<S::Output>,
                    ReplicaError,
                >(e),
            },
    {
        let expected: SeqNo = SeqNo(self.seq.0 + 1);
        if frame.seq.0 != expected.0 {
            return Err(ReplicaError::OutOfOrder { expected, got: frame.seq });
        }
        self.seq = frame.seq;
        let mut outputs: OutBuf<S::Output> = OutBuf::new();
        let mut ignored: Vec<TimerReq> = Vec::new();
        assert(encoded(outputs@) =~= Seq::<Seq<u8>>::empty());
        match frame.kind {
            FrameKind::Input => {
                let input: S::Input = match decode_all(frame.payload.as_slice()) {
                    Ok(v) => v,
                    Err(err) => {
                        return Err(ReplicaError::CorruptInput { seq: frame.seq, err });
                    },
                };
                let ghost step = S::step(
                    self.service.config(),
                    self.service.state(),
                    frame@.seq,
                    frame@.time,
                    input.bytes(),
                );
                let mut ctx = Ctx::new(frame.seq, frame.timestamp, &mut outputs, &mut ignored);
                self.service.apply(frame.seq, &input, &mut ctx);
                assert(encoded(outputs@) =~= step.outputs);
                Ok(outputs.drain())
            },
            FrameKind::TimerFired => {
                let id: u64 = match decode_all::<u64>(frame.payload.as_slice()) {
                    Ok(v) => v,
                    Err(err) => {
                        return Err(ReplicaError::CorruptInput { seq: frame.seq, err });
                    },
                };
                proof {
                    crate::le::lemma_pow256_values();
                    crate::le::law_le_value_of_bytes(id as nat, 8);
                }
                let ghost step = S::timer_step(
                    self.service.config(),
                    self.service.state(),
                    frame@.seq,
                    frame@.time,
                    id,
                );
                let mut ctx = Ctx::new(frame.seq, frame.timestamp, &mut outputs, &mut ignored);
                self.service.on_timer(id, &mut ctx);
                assert(encoded(outputs@) =~= step.outputs);
                Ok(outputs.drain())
            },
            FrameKind::EpochChange => {
                if frame.payload.len() >= 20 {
                    match crate::epoch::EpochChange::from_frame(frame) {
                        Ok(fence) => {
                            if fence.schema_version != S::SCHEMA_VERSION {
                                return Err(
                                    ReplicaError::SchemaMismatch {
                                        theirs: fence.schema_version,
                                        ours: S::SCHEMA_VERSION,
                                        seq: frame.seq,
                                    },
                                );
                            }
                        },
                        Err(err) => {
                            return Err(ReplicaError::CorruptInput { seq: frame.seq, err });
                        },
                    }
                }
                Ok(outputs.drain())
            },
            _ => Ok(outputs.drain()),
        }
    }

    /// The seq of the last applied frame.
    pub fn seq(&self) -> (r: SeqNo)
        ensures
            r.0 == self.tip(),
    {
        self.seq
    }

    pub fn service(&self) -> (r: &S)
        ensures
            r.state() == self.state(),
            r.config() == self.config(),
    {
        &self.service
    }
}

/// A frame whose payload does not decode is refused under its own seq, and a
/// frame that is no input, timer or fence leaves the state and puts nothing out.
pub proof fn law_damaged_frame_is_refused<S: Service>(
    config: S::Config,
    state: Seq<u8>,
    f: Record,
    input: S::Input,
)
    ensures
        f.kind == FrameKind::Input ==> (parse_all::<S::Input>(f.payload) matches Err(err)
            ==> followed::<S>(config, state, f) == Err::<(Seq<u8>, Seq<Seq<u8>>), ReplicaError>(
            ReplicaError::CorruptInput { seq: SeqNo(f.seq), err },
        )),
        f.kind == FrameKind::TimerFired ==> (parse_all::<u64>(f.payload) matches Err(err)
            ==> followed::<S>(config, state, f) == Err::<(Seq<u8>, Seq<Seq<u8>>), ReplicaError>(
            ReplicaError::CorruptInput { seq: SeqNo(f.seq), err },
        )),
        f.kind == FrameKind::Input && input.encodable() && f.payload == input.bytes() ==> ({
            let step = S::step(config, state, f.seq, f.time, f.payload);
            followed::<S>(config, state, f) == Ok::<(Seq<u8>, Seq<Seq<u8>>), ReplicaError>(
                (step.state, step.outputs),
            )
        }),
        f.kind != FrameKind::Input && f.kind != FrameKind::TimerFired && f.kind
            != FrameKind::EpochChange ==> followed::<S>(config, state, f) == Ok::<
            (Seq<u8>, Seq<Seq<u8>>),
            ReplicaError,
        >((state, Seq::empty())),
        f.kind == FrameKind::EpochChange && f.payload.len() < 20 ==> followed::<S>(
            config,
            state,
            f,
        ) == Ok::<(Seq<u8>, Seq<Seq<u8>>), ReplicaError>((state, Seq::empty())),
{
    if input.encodable() {
        crate::codec::law_encoding_is_accepted(input);
    }
}

} // verus!
