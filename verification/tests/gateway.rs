//! Session flow control and the gateway protocol.

use std::cell::Cell;
use std::rc::Rc;

use ticktape::codec::{decode_all, encode_to_vec, Bytes, CodecError, Encode};
use ticktape::gateway::edge::{Outgoing, ServeConfig};
use ticktape::gateway::flow::{Admit, SessionFlow};
use ticktape::gateway::message::{
    read_msg, write_msg, Addressed, ClientMsg, GatewayInput, MessageError, RejectReason, ServerMsg,
    MAX_MESSAGE_BYTES,
};
use ticktape::gateway::server::{following, greeting, Gateway, Req};
use ticktape::journal::FsyncPolicy;
use ticktape::node::{ManualClock, Node, NodeConfig, NodeError};
use ticktape::seq::{SeqNo, Timestamp};
use ticktape::service::{Ctx, Service, Step};
use ticktape::sim_storage::{SimFile, SimStorage};
use ticktape::storage::{Disk, DiskModel, IoError, PowerLosses, Storage, StorageFile};

#[test]
fn exactly_once_despite_retries() {
    let mut flow = SessionFlow::new(8);
    assert_eq!(flow.try_admit(1), Admit::Accept);
    flow.on_acked();
    // The ack was lost; the client retries 1, then proceeds.
    assert_eq!(flow.try_admit(1), Admit::Duplicate);
    assert_eq!(flow.try_admit(2), Admit::Accept);
    assert_eq!(flow.try_admit(2), Admit::Duplicate);
}

#[test]
fn gaps_are_protocol_errors() {
    let mut flow = SessionFlow::new(8);
    assert_eq!(flow.try_admit(1), Admit::Accept);
    assert_eq!(flow.try_admit(3), Admit::Gap { expected: 2 });
    // The refusal consumed nothing; 2 then 3 proceed normally.
    assert_eq!(flow.try_admit(2), Admit::Accept);
    assert_eq!(flow.try_admit(3), Admit::Accept);
}

#[test]
fn single_outstanding_discipline() {
    let mut flow = SessionFlow::new(1);
    assert_eq!(flow.try_admit(1), Admit::Accept);
    // Nothing acked yet: the next command must wait...
    assert_eq!(flow.try_admit(2), Admit::Throttled);
    flow.on_acked();
    // ...and the SAME seq is admissible after the ack (Throttled did not
    // consume it).
    assert_eq!(flow.try_admit(2), Admit::Accept);
}

#[test]
fn resume_after_gateway_restart() {
    let mut flow = SessionFlow::resume(41, 4);
    assert_eq!(flow.try_admit(41), Admit::Duplicate, "already journaled");
    assert_eq!(flow.try_admit(42), Admit::Accept);
}

#[test]
fn envelope_roundtrips() {
    let input: GatewayInput<u32> = GatewayInput::Client { session: 7, client_seq: 3, cmd: 99 };
    let bytes = encode_to_vec(&input);
    assert_eq!(bytes.len(), input.encoded_len());
    assert_eq!(decode_all::<GatewayInput<u32>>(&bytes).unwrap(), input);

    let closed: GatewayInput<u32> = GatewayInput::SessionClosed { session: 7 };
    assert_eq!(
        decode_all::<GatewayInput<u32>>(&encode_to_vec(&closed)).unwrap(),
        closed
    );

    let addressed = Addressed { session: 5, event: String::from("fill") };
    assert_eq!(
        decode_all::<Addressed<String>>(&encode_to_vec(&addressed)).unwrap(),
        addressed
    );
}

#[test]
fn protocol_roundtrips_over_a_stream() {
    let msgs: Vec<ServerMsg<String>> = vec![
        ServerMsg::Ack { client_seq: 1, seq: 42 },
        ServerMsg::Event { event_seq: 1, event: "hello".into() },
        ServerMsg::Rejected { client_seq: 2, reason: RejectReason::Gap { expected: 2 } },
    ];
    let mut wire = Vec::new();
    for msg in &msgs {
        write_msg(&mut wire, msg);
    }
    let mut cursor = wire.as_slice();
    for expected in &msgs {
        let got: ServerMsg<String> = read_msg(&mut cursor).unwrap().unwrap();
        assert_eq!(&got, expected);
    }
    assert!(read_msg::<ServerMsg<String>>(&mut cursor).unwrap().is_none());
}

#[test]
fn broken_messages_are_refused() {
    let mut wire = Vec::new();
    write_msg(&mut wire, &ClientMsg::<u32>::Hello { session: 1, from_event_seq: 0 });
    let cut = wire.len() - 1;
    assert!(matches!(
        read_msg::<ClientMsg<u32>>(&mut &wire[..cut]),
        Err(MessageError::Cut)
    ));
    wire[4] = 9;
    assert!(matches!(
        read_msg::<ClientMsg<u32>>(&mut wire.as_slice()),
        Err(MessageError::Codec(CodecError::InvalidValue("enum discriminant")))
    ));
    let long = (MAX_MESSAGE_BYTES as u32 + 1).to_le_bytes();
    assert!(matches!(
        read_msg::<ClientMsg<u32>>(&mut long.as_slice()),
        Err(MessageError::TooLarge)
    ));
}

/// Adds up what its sessions send. Each command is answered with the running
/// total; a closed session is reported to session 1.
struct Desk {
    total: u32,
}

impl Service for Desk {
    type Input = GatewayInput<u32>;
    type Output = Addressed<u32>;
    type Snapshot = u32;
    type Config = ();
    fn config(&self) {}
    fn state(&self) -> Bytes {
        unreachable!()
    }
    fn genesis_state(_: ()) -> Bytes {
        unreachable!()
    }
    fn step(_: (), _: Bytes, _: u64, _: u64, _: Bytes) -> Step {
        unreachable!()
    }
    fn timer_step(_: (), _: Bytes, _: u64, _: u64, _: u64) -> Step {
        unreachable!()
    }
    fn restored(_: (), _: Bytes) -> Bytes {
        unreachable!()
    }
    fn law_restore_inverts_snapshot(&self) {}

    fn genesis(_: &()) -> Self {
        Desk { total: 0 }
    }

    fn apply(&mut self, _: SeqNo, input: &GatewayInput<u32>, ctx: &mut Ctx<'_, Addressed<u32>>) {
        match input {
            GatewayInput::Client { session, cmd, .. } => {
                self.total += cmd;
                ctx.emit(Addressed { session: *session, event: self.total });
            }
            GatewayInput::SessionClosed { session } => {
                ctx.emit(Addressed { session: 1, event: 1000 + *session as u32 });
            }
        }
    }

    fn on_timer(&mut self, _: u64, _: &mut Ctx<'_, Addressed<u32>>) {}

    fn snapshot(&self) -> u32 {
        self.total
    }

    fn restore(snap: u32, _: &()) -> Self {
        Desk { total: snap }
    }
}

/// A disk whose writes fail for as long as `full` says so.
struct Flaky {
    disk: SimStorage,
    full: Rc<Cell<bool>>,
}

struct FlakyFile {
    file: SimFile,
}

impl Disk for Flaky {
    fn view(&self) -> DiskModel {
        unreachable!()
    }
    fn reliable(&self) -> bool {
        false
    }
    fn listable(&self, _: Bytes) -> bool {
        unreachable!()
    }
}

impl StorageFile<Flaky> for FlakyFile {
    fn path(&self) -> Bytes {
        unreachable!()
    }
    fn opened_in(&self) -> PowerLosses {
        unreachable!()
    }
    fn write_all(&mut self, disk: &mut Flaky, buf: &[u8]) -> Result<(), IoError> {
        if disk.full.get() {
            return Err(IoError::Os(28));
        }
        self.file.write_all(&mut disk.disk, buf)
    }
    fn sync_data(&mut self, disk: &mut Flaky) -> Result<(), IoError> {
        self.file.sync_data(&mut disk.disk)
    }
    fn len(&self, disk: &Flaky) -> Result<u64, IoError> {
        self.file.len(&disk.disk)
    }
}

impl Storage for Flaky {
    type File = FlakyFile;
    fn create_dir_all(&mut self, dir: &[u8]) -> Result<(), IoError> {
        self.disk.create_dir_all(dir)
    }
    fn list_dir(&self, dir: &[u8]) -> Result<Vec<Vec<u8>>, IoError> {
        self.disk.list_dir(dir)
    }
    fn read(&self, path: &[u8]) -> Result<Vec<u8>, IoError> {
        self.disk.read(path)
    }
    fn open_append(&mut self, path: &[u8]) -> Result<FlakyFile, IoError> {
        Ok(FlakyFile { file: self.disk.open_append(path)? })
    }
    fn create_new(&mut self, path: &[u8]) -> Result<FlakyFile, IoError> {
        Ok(FlakyFile { file: self.disk.create_new(path)? })
    }
    fn truncate(&mut self, path: &[u8], len: u64) -> Result<(), IoError> {
        self.disk.truncate(path, len)
    }
    fn remove(&mut self, path: &[u8]) -> Result<(), IoError> {
        self.disk.remove(path)
    }
    fn sync_dir(&mut self, dir: &[u8]) -> Result<(), IoError> {
        self.disk.sync_dir(dir)
    }
}

type Desks = Gateway<Desk, ManualClock, Flaky>;

fn gateway(config: ServeConfig) -> (Desks, Rc<Cell<bool>>) {
    let full = Rc::new(Cell::new(false));
    let disk = Flaky { disk: SimStorage::new(), full: full.clone() };
    let mut setup = NodeConfig::new(b"/gateway");
    setup.journal.fsync = FsyncPolicy::EveryFrame;
    let node = Node::open_with(setup, (), ManualClock(Timestamp(1)), disk).unwrap();
    (Gateway::new(node, &config), full)
}

/// What was sent, by connection.
fn received(out: &[Outgoing]) -> Vec<(u64, ServerMsg<u32>)> {
    out.iter()
        .map(|o| (o.conn, read_msg(&mut o.bytes.as_slice()).unwrap().unwrap()))
        .collect()
}

fn attach(session: u64, from_event_seq: u64, conn: u64) -> Req<u32> {
    Req::Attach { session, from_event_seq, conn }
}

fn watch(session: u64, from_event_seq: u64, conn: u64) -> Req<u32> {
    Req::Watch { session, from_event_seq, conn }
}

fn command(session: u64, client_seq: u64, cmd: u32) -> Req<u32> {
    Req::Cmd { session, client_seq, cmd }
}

#[test]
fn a_command_is_acked_and_its_event_goes_out() {
    let (mut gw, _) = gateway(ServeConfig::default());
    assert!(gw.on_request(attach(7, 0, 70)).out.is_empty());
    let served = gw.on_request(command(7, 1, 5));
    assert!(served.failed.is_none() && !served.dropped);
    assert_eq!(
        received(&served.out),
        vec![
            (70, ServerMsg::Ack { client_seq: 1, seq: 1 }),
            (70, ServerMsg::Event { event_seq: 1, event: 5 }),
        ]
    );
    let served = gw.on_request(command(7, 2, 6));
    assert_eq!(
        received(&served.out),
        vec![
            (70, ServerMsg::Ack { client_seq: 2, seq: 2 }),
            (70, ServerMsg::Event { event_seq: 2, event: 11 }),
        ]
    );
}

#[test]
fn a_retry_and_a_gap_are_refused_without_effect() {
    let (mut gw, _) = gateway(ServeConfig::default());
    gw.on_request(attach(7, 0, 70));
    gw.on_request(command(7, 1, 5));
    assert_eq!(
        received(&gw.on_request(command(7, 1, 5)).out),
        vec![(70, ServerMsg::Rejected { client_seq: 1, reason: RejectReason::Duplicate })]
    );
    assert_eq!(
        received(&gw.on_request(command(7, 3, 5)).out),
        vec![(70, ServerMsg::Rejected { client_seq: 3, reason: RejectReason::Gap { expected: 2 } })]
    );
    assert_eq!(
        received(&gw.on_request(command(7, 2, 1)).out),
        vec![
            (70, ServerMsg::Ack { client_seq: 2, seq: 2 }),
            (70, ServerMsg::Event { event_seq: 2, event: 6 }),
        ]
    );
}

#[test]
fn each_session_is_answered_by_its_own_count() {
    let (mut gw, _) = gateway(ServeConfig::default());
    gw.on_request(attach(7, 0, 70));
    gw.on_request(attach(8, 0, 80));
    let mut next = [1u64, 1];
    let mut seq = 0u64;
    for step in 0..40u64 {
        let who = (step % 3 == 0) as usize;
        let sent = match step % 5 {
            0 => next[who] + 2,
            1 => next[who].saturating_sub(1),
            _ => next[who],
        };
        let (session, conn) = [(7, 70), (8, 80)][who];
        let got = received(&gw.on_request(command(session, sent, 1)).out);
        let reply = if sent < next[who] {
            ServerMsg::Rejected { client_seq: sent, reason: RejectReason::Duplicate }
        } else if sent > next[who] {
            let reason = RejectReason::Gap { expected: next[who] };
            ServerMsg::Rejected { client_seq: sent, reason }
        } else {
            next[who] += 1;
            seq += 1;
            ServerMsg::Ack { client_seq: sent, seq }
        };
        assert_eq!(got[0], (conn, reply));
    }
    assert!(next[0] > 10 && next[1] > 5);
}

#[test]
fn a_command_left_unacked_fills_the_window() {
    let (mut gw, full) = gateway(ServeConfig { window: 1, ..ServeConfig::default() });
    gw.on_request(attach(7, 0, 70));
    gw.on_request(command(7, 1, 5));
    full.set(true);
    assert!(gw.on_request(command(7, 2, 5)).dropped);
    full.set(false);
    gw.on_request(attach(7, 1, 71));
    assert_eq!(
        received(&gw.on_request(command(7, 3, 5)).out),
        vec![(71, ServerMsg::Rejected { client_seq: 3, reason: RejectReason::Throttled })]
    );
}

#[test]
fn a_recovered_session_goes_on_behind_its_last_command() {
    let (mut gw, _) = gateway(ServeConfig { resume: vec![(7, 41)], ..ServeConfig::default() });
    gw.on_request(attach(7, 0, 70));
    assert_eq!(
        received(&gw.on_request(command(7, 41, 5)).out),
        vec![(70, ServerMsg::Rejected { client_seq: 41, reason: RejectReason::Duplicate })]
    );
    assert_eq!(
        received(&gw.on_request(command(7, 42, 5)).out)[0],
        (70, ServerMsg::Ack { client_seq: 42, seq: 1 })
    );
}

#[test]
fn a_reconnecting_client_gets_what_it_missed() {
    let (mut gw, _) = gateway(ServeConfig { outbox_capacity: 2, ..ServeConfig::default() });
    gw.on_request(attach(7, 0, 70));
    for n in 1..=3 {
        gw.on_request(command(7, n, 1));
    }
    // The oldest event left the outbox; the client sees the gap.
    assert_eq!(
        received(&gw.on_request(attach(7, 0, 71)).out),
        vec![
            (71, ServerMsg::Event { event_seq: 2, event: 2 }),
            (71, ServerMsg::Event { event_seq: 3, event: 3 }),
        ]
    );
    assert_eq!(
        received(&gw.on_request(attach(7, 2, 72)).out),
        vec![(72, ServerMsg::Event { event_seq: 3, event: 3 })]
    );
}

#[test]
fn an_observer_is_told_it_is_live_and_sees_every_event() {
    let (mut gw, _) = gateway(ServeConfig::default());
    gw.on_request(attach(7, 0, 70));
    gw.on_request(command(7, 1, 5));
    assert_eq!(
        received(&gw.on_request(watch(7, 0, 90)).out),
        vec![
            (90, ServerMsg::Ack { client_seq: 0, seq: 0 }),
            (90, ServerMsg::Event { event_seq: 1, event: 5 }),
        ]
    );
    // Acks are the client's alone.
    assert_eq!(
        received(&gw.on_request(command(7, 2, 5)).out),
        vec![
            (70, ServerMsg::Ack { client_seq: 2, seq: 2 }),
            (70, ServerMsg::Event { event_seq: 2, event: 10 }),
            (90, ServerMsg::Event { event_seq: 2, event: 10 }),
        ]
    );
    gw.gone(7, 90);
    assert_eq!(received(&gw.on_request(command(7, 3, 5)).out).len(), 2);
}

#[test]
fn a_close_is_sequenced_and_its_events_wait_for_their_session() {
    let (mut gw, _) = gateway(ServeConfig::default());
    gw.on_request(attach(7, 0, 70));
    // Session 1 is not connected: the event is kept for it.
    let served = gw.on_request(Req::Close { session: 7 });
    assert!(served.out.is_empty() && served.failed.is_none());
    assert_eq!(
        received(&gw.on_request(attach(1, 0, 10)).out),
        vec![(10, ServerMsg::Event { event_seq: 1, event: 1007 })]
    );
    // The closed connection hears nothing more, the command still counts.
    assert!(gw.on_request(command(7, 1, 5)).out.is_empty());
    assert_eq!(
        received(&gw.on_request(command(1, 1, 5)).out)[0],
        (10, ServerMsg::Ack { client_seq: 1, seq: 3 })
    );
}

#[test]
fn a_command_that_could_not_be_journaled_is_not_acked() {
    let (mut gw, full) = gateway(ServeConfig::default());
    gw.on_request(attach(7, 0, 70));
    gw.on_request(attach(8, 0, 80));
    gw.on_request(command(7, 1, 5));
    full.set(true);
    let served = gw.on_request(command(7, 2, 5));
    assert!(served.out.is_empty() && served.dropped);
    assert!(matches!(served.failed, Some(NodeError::Journal(_))));
    let served = gw.on_request(Req::Close { session: 7 });
    assert!(served.out.is_empty() && !served.dropped);
    assert!(matches!(served.failed, Some(NodeError::Journal(_))));
    // Other sessions go on once the disk does, with the next seq.
    full.set(false);
    let served = gw.on_request(command(8, 1, 3));
    assert_eq!(
        received(&served.out),
        vec![
            (80, ServerMsg::Ack { client_seq: 1, seq: 2 }),
            (80, ServerMsg::Event { event_seq: 1, event: 8 }),
        ]
    );
}

#[test]
fn a_connection_starts_with_a_hello() {
    let hello: ClientMsg<u32> = ClientMsg::Hello { session: 7, from_event_seq: 3 };
    assert!(matches!(
        greeting(70, hello),
        Some(Req::Attach { session: 7, from_event_seq: 3, conn: 70 })
    ));
    let copy: ClientMsg<u32> = ClientMsg::DropCopy { session: 7, from_event_seq: 3 };
    assert!(matches!(
        greeting(70, copy),
        Some(Req::Watch { session: 7, from_event_seq: 3, conn: 70 })
    ));
    assert!(greeting(70, ClientMsg::Cmd { client_seq: 1, cmd: 5u32 }).is_none());
    assert!(matches!(
        following(7, Some(ClientMsg::Cmd { client_seq: 1, cmd: 5u32 })),
        Req::Cmd { session: 7, client_seq: 1, cmd: 5 }
    ));
    assert!(matches!(following::<u32>(7, None), Req::Close { session: 7 }));
    let again: ClientMsg<u32> = ClientMsg::Hello { session: 7, from_event_seq: 3 };
    assert!(matches!(following(7, Some(again)), Req::Close { session: 7 }));
}
