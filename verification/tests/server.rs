//! A replicated deployment end to end: following, failover by hand and on its
//! own, and what operators see. Packets, votes and retransmissions are carried
//! from server to server by hand, and time is a number.

use ticktape::codec::decode_all;
use ticktape::election::{ElectionOutcome, ElectionRun};
use ticktape::frame::{Frame, FrameKind};
use ticktape::journal::{Journal, JournalConfig};
use ticktape::node::{ManualClock, NodeError};
use ticktape::rng::Rng;
use ticktape::seq::{SeqNo, Timestamp};
use ticktape::server::admin::{respond, ServerStats};
use ticktape::server::detector::FailureDetector;
use ticktape::server::{ClusterConfig, Pumped, Role, Server, ServerError};
use ticktape::service::Service;
use ticktape::sim::demo::{gen_transfer, Bank};
use ticktape::sim::Invariants;
use ticktape::sim_storage::SimStorage;
use ticktape::transport::packet::{Packet, RetransmitRequest};
use ticktape::transport::TransportError;
use ticktape::votes::{decode_reply, encode_request};

type BankServer = Server<Bank, ManualClock, SimStorage>;

fn clock() -> ManualClock {
    ManualClock(Timestamp(1_000))
}

fn open(idx: usize, config: &ClusterConfig, now: u64) -> BankServer {
    Server::open_follower(
        idx,
        config.clone(),
        (),
        format!("/node-{idx}").as_bytes(),
        SimStorage::new(),
        SimStorage::new(),
        now,
    )
    .unwrap()
}

/// The servers that are up, by index.
struct Net {
    servers: Vec<Option<BankServer>>,
    now: u64,
}

impl Net {
    fn new(config: &ClusterConfig) -> Net {
        Net {
            servers: (0..config.peers).map(|i| Some(open(i, config, 0))).collect(),
            now: 0,
        }
    }

    fn at(&mut self, idx: usize) -> &mut BankServer {
        self.servers[idx].as_mut().unwrap()
    }

    /// Carries packets from one server to all others.
    fn send(&mut self, from: usize, packets: &[Vec<u8>]) {
        for to in self.at(from).audience() {
            if let Some(server) = self.servers[to].as_mut() {
                for packet in packets {
                    server.on_packet(packet).unwrap();
                }
            }
        }
    }

    fn start(&mut self, idx: usize) {
        let packets = self
            .at(idx)
            .start_as_leader(clock(), SimStorage::new())
            .unwrap();
        self.send(idx, &packets);
    }

    fn submit(&mut self, idx: usize, rng: &mut Rng) {
        let done = self.at(idx).submit(&gen_transfer(rng)).unwrap();
        self.send(idx, &done.packets);
    }

    /// Lets a follower take in whatever has arrived, filling gaps from the
    /// server it takes for its leader.
    fn pump(&mut self, idx: usize) {
        loop {
            match self.at(idx).pump().unwrap() {
                Pumped::Delivered(_) => {}
                Pumped::Fill(mut fill) => {
                    let leader = self.at(idx).leader_hint();
                    while let Some(request) = fill.request() {
                        let Some(source) = self.servers[leader].as_mut() else {
                            return;
                        };
                        let Ok(reply) = source.retransmit(&request.encode()) else {
                            return;
                        };
                        self.at(idx).on_reply(&mut fill, &reply).unwrap();
                    }
                }
                Pumped::Idle => break,
            }
        }
        let now = self.now;
        self.at(idx).observe(now);
    }

    /// Holds the election that `idx` stands in: every server that is up is
    /// asked for its vote.
    fn elect(&mut self, idx: usize) -> ElectionOutcome {
        let mut run = ElectionRun::new(self.at(idx).bid(), self.servers.len() as u32);
        let epoch = self.at(idx).bid();
        while let Some(voter) = run.next_voter() {
            let request = encode_request(ticktape::election::VoteRequest { epoch });
            let answer = self.servers[voter as usize]
                .as_mut()
                .and_then(|s| s.on_vote(&request))
                .and_then(|bytes| decode_reply(&bytes));
            run.on_answer(answer);
        }
        run.outcome()
    }

    fn promote(&mut self, idx: usize) -> Result<(), ServerError> {
        let outcome = self.elect(idx);
        let packets = self.at(idx).promote(outcome, clock(), SimStorage::new())?;
        self.send(idx, &packets);
        Ok(())
    }

    /// One round of a server's main loop.
    fn tick(&mut self, idx: usize) {
        match self.at(idx).role() {
            Role::Leader => {
                let packet = self.at(idx).heartbeat().unwrap();
                self.send(idx, &[packet]);
            }
            Role::Follower => {
                self.pump(idx);
                let now = self.now;
                if self.at(idx).leader_suspected(now) {
                    let outcome = self.elect(idx);
                    let (_, packets) = self
                        .at(idx)
                        .maybe_failover(outcome, clock(), SimStorage::new(), now)
                        .unwrap();
                    self.send(idx, &packets);
                }
            }
        }
    }
}

#[test]
fn operator_promoted_failover_preserves_state_and_continues() {
    let mut net = Net::new(&ClusterConfig::new(3, 0xF33D));
    net.start(0);
    assert_eq!(net.at(0).role(), Role::Leader);

    // Sequence 100 transfers on the leader; followers replicate them.
    let mut rng = Rng::new(7);
    for _ in 0..100 {
        net.submit(0, &mut rng);
    }
    let leader_seq = net.at(0).seq();
    net.pump(1);
    net.pump(2);
    assert_eq!(net.at(1).seq(), leader_seq);

    let leader_state = net.at(0).snapshot_bytes();
    assert_eq!(net.at(1).snapshot_bytes(), leader_state, "follower 1 diverged");
    assert_eq!(net.at(2).snapshot_bytes(), leader_state, "follower 2 diverged");

    // The leader dies. The operator promotes follower 1.
    net.servers[0] = None;
    assert!(net.promote(1).is_ok(), "follower 1 should win with 2/3 majority");
    assert_eq!(net.at(1).role(), Role::Leader);
    assert!(net.at(1).epoch() > 1, "promotion must bump the epoch");

    let promoted_state = net.at(1).snapshot_bytes();
    assert_eq!(
        promoted_state, leader_state,
        "promotion lost committed state"
    );
    let restored = Bank::restore(decode_all(&promoted_state).unwrap(), &());
    restored
        .check()
        .expect("conservation invariant after failover");

    // The new leader keeps sequencing, and the surviving follower keeps
    // replicating from it once the operator points it there.
    for _ in 0..50 {
        net.submit(1, &mut rng);
    }
    net.at(2).set_leader_hint(1);
    net.pump(2);
    assert_eq!(
        net.at(2).snapshot_bytes(),
        net.at(1).snapshot_bytes(),
        "follower 2 did not track the promoted leader"
    );
}

#[test]
fn promotion_without_majority_is_refused() {
    let mut net = Net::new(&ClusterConfig::new(3, 0xF33D));
    net.servers[1] = None;
    net.servers[2] = None;
    let refused = net.promote(0);
    assert!(
        matches!(refused, Err(ServerError::ElectionLost { .. })),
        "promotion must fail without a majority"
    );
    assert_eq!(net.at(0).role(), Role::Follower);
}

fn quick(peers: usize) -> ClusterConfig {
    let mut config = ClusterConfig::new(peers, 0xB0B);
    config.failover_timeout = 200;
    config.failover_stagger = 120;
    config.heartbeat_interval = 30;
    config
}

#[test]
fn standby_promotes_automatically_when_the_leader_dies() {
    let mut net = Net::new(&quick(3));
    net.start(0);

    let mut rng = Rng::new(11);
    for _ in 0..100 {
        net.submit(0, &mut rng);
    }
    net.pump(1);
    net.pump(2);
    let pre_state = net.at(0).snapshot_bytes();
    assert_eq!(
        net.at(1).snapshot_bytes(),
        pre_state,
        "follower 1 diverged pre-kill"
    );
    assert_eq!(
        net.at(2).snapshot_bytes(),
        pre_state,
        "follower 2 diverged pre-kill"
    );

    // The leader is gone. Nobody touches the survivors from here.
    net.servers[0] = None;
    let mut promoted = None;
    while net.now < 10_000 && promoted.is_none() {
        net.now += 20;
        net.tick(1);
        net.tick(2);
        promoted = [1, 2].into_iter().find(|&i| net.at(i).role() == Role::Leader);
    }
    let promoted = promoted.expect("no standby promoted itself within the deadline");
    assert_eq!(promoted, 1, "expected the lowest-indexed survivor to win");

    assert_eq!(
        net.at(1).snapshot_bytes(),
        pre_state,
        "automatic promotion lost committed state"
    );
    assert!(net.at(1).epoch() > 1, "promotion must bump the epoch");
    let restored = Bank::restore(decode_all(&net.at(1).snapshot_bytes()).unwrap(), &());
    restored
        .check()
        .expect("conservation invariant after automatic failover");

    // The new leader keeps sequencing, and the surviving follower turns to it
    // and catches up on its own.
    for _ in 0..50 {
        net.submit(1, &mut rng);
    }
    let target = net.at(1).seq();
    let deadline = net.now + 10_000;
    while net.at(2).seq() < target && net.now < deadline {
        net.now += 20;
        net.tick(1);
        net.tick(2);
    }
    assert_eq!(
        net.at(2).snapshot_bytes(),
        net.at(1).snapshot_bytes(),
        "surviving follower did not re-converge on the new leader automatically"
    );
    assert_eq!(net.at(2).role(), Role::Follower);
}

#[test]
fn a_quiet_leader_is_not_mistaken_for_a_dead_one() {
    let mut net = Net::new(&quick(3));
    net.start(0);
    while net.now < 900 {
        net.now += 20;
        net.tick(0);
        net.tick(1);
        net.tick(2);
    }
    assert_eq!(
        net.at(1).role(),
        Role::Follower,
        "idle leader triggered a false failover"
    );
    assert_eq!(
        net.at(2).role(),
        Role::Follower,
        "idle leader triggered a false failover"
    );
    let now = net.now;
    assert!(!net.at(1).leader_suspected(now));
    assert!(!net.at(2).leader_suspected(now));
}

#[test]
fn stats_reflect_role_lag_and_survive_failover() {
    let mut net = Net::new(&ClusterConfig::new(3, 0xF33D));
    net.start(0);
    let mut rng = Rng::new(3);
    for _ in 0..60 {
        net.submit(0, &mut rng);
    }

    let ls = net.at(0).stats();
    assert_eq!(ls.role, "leader");
    assert_eq!(ls.lag, 0);
    assert!(ls.seq >= 60);
    // A follower that has heard of the frames but not taken them in lags.
    assert!(net.at(1).stats().lag > 0);

    net.pump(1);
    net.pump(2);
    let f1 = net.at(1).stats();
    assert_eq!(f1.role, "follower");
    assert_eq!(f1.node, 1);
    assert_eq!(f1.lag, 0, "caught-up follower should report zero lag");
    assert_eq!(f1.seq, ls.seq);

    let body = respond("GET /metrics HTTP/1.1\r\nHost: x\r\n\r\n", &net.at(0).stats());
    assert!(
        body.contains("ticktape_role{node=\"0\"} 1"),
        "leader role metric: {body}"
    );
    assert!(body.contains(&format!("ticktape_seq{{node=\"0\"}} {}", ls.seq)));

    net.servers[0] = None;
    assert!(net.promote(1).is_ok());
    let after = net.at(1).stats();
    assert_eq!(after.role, "leader");
    assert_eq!(after.node, 1);
    assert!(after.epoch > ls.epoch, "epoch must advance on promotion");
    assert_eq!(after.lag, 0);
}

fn sample() -> ServerStats {
    ServerStats {
        node: 2,
        role: "follower",
        epoch: 3,
        seq: 998,
        lag: 5,
        snapshot_seq: 500,
        journal_segments: 2,
    }
}

#[test]
fn prometheus_render_has_all_metrics() {
    let text = sample().to_prometheus();
    assert!(text.contains("ticktape_role{node=\"2\"} 0"));
    assert!(text.contains("ticktape_epoch{node=\"2\"} 3"));
    assert!(text.contains("ticktape_seq{node=\"2\"} 998"));
    assert!(text.contains("ticktape_lag_frames{node=\"2\"} 5"));
    assert!(text.contains("ticktape_snapshot_seq{node=\"2\"} 500"));
    assert!(text.contains("ticktape_journal_segments{node=\"2\"} 2"));
}

#[test]
fn http_endpoint_serves_metrics_and_healthz() {
    let fetch =
        |path: &str| respond(&format!("GET {path} HTTP/1.1\r\nHost: x\r\n\r\n"), &sample());

    let metrics = fetch("/metrics");
    assert!(metrics.contains("200 OK"));
    assert!(metrics.contains("ticktape_seq{node=\"2\"} 998"));

    let health = fetch("/healthz");
    assert!(health.contains("200 OK") && health.contains("ok"));

    let missing = fetch("/nope");
    assert!(missing.contains("404 Not Found"));
}

// A server follows one leader and refuses what only a leader may do.
#[test]
fn a_follower_refuses_what_only_a_leader_may_do() {
    let mut server = open(0, &ClusterConfig::new(3, 1), 0);
    let mut rng = Rng::new(1);
    assert!(matches!(
        server.submit(&gen_transfer(&mut rng)),
        Err(ServerError::WrongRole("submit requires leader"))
    ));
    assert!(server.heartbeat().is_none());
    assert!(server.retransmit(&[]).is_err());
    assert_eq!(server.audience(), vec![1, 2]);
}

#[test]
fn the_detector_waits_out_its_timeout() {
    let mut detector = FailureDetector::new(100, 0, 0);
    assert!(!detector.suspects(99));
    assert!(detector.suspects(100) || detector.suspects(101));
    detector.observe(1, 90);
    assert!(!detector.suspects(150));
    // No new packet: the silence goes on.
    detector.observe(1, 150);
    assert!(detector.suspects(250));
    detector.reset(1, 250);
    assert!(!detector.suspects(260));
}

#[test]
fn errors_of_a_server_say_what_happened() {
    assert_eq!(
        ServerError::ElectionLost {
            highest_promised: 9
        }
        .message(),
        "promotion lost the election (highest promised epoch 9)"
    );
    assert_eq!(
        ServerError::WrongRole("submit requires leader").message(),
        "wrong role: submit requires leader"
    );
}

/// The frames in an answer: each packet stands behind its length.
fn frames_of(mut reply: &[u8]) -> Vec<(u64, u64)> {
    let mut out = Vec::new();
    while !reply.is_empty() {
        let len = u32::from_le_bytes([reply[0], reply[1], reply[2], reply[3]]) as usize;
        match Packet::decode(&reply[4..4 + len]).unwrap() {
            Packet::Data { session, frames } => {
                out.extend(frames.iter().map(|f| (session, f.seq.0)))
            }
            Packet::Heartbeat { .. } => panic!("an answer carries frames"),
        }
        reply = &reply[4 + len..];
    }
    out
}

#[test]
fn a_leader_retransmits_what_it_has_sequenced() {
    let config = ClusterConfig::new(3, 9);
    let mut net = Net::new(&config);
    net.start(0);
    let mut rng = Rng::new(4);
    for _ in 0..20 {
        net.submit(0, &mut rng);
    }
    let request = |session: u64, from: u64, count: u32| {
        RetransmitRequest { session, from: SeqNo(from), count }.encode()
    };
    // The fence is the first frame, and the inputs follow it.
    let reply = net.at(0).retransmit(&request(9, 1, 21)).unwrap();
    assert_eq!(frames_of(&reply), (1..=21).map(|s| (9, s)).collect::<Vec<_>>());
    let reply = net.at(0).retransmit(&request(9, 13, 1)).unwrap();
    assert_eq!(frames_of(&reply), vec![(9, 13)]);
    // Nothing is there behind the end.
    let reply = net.at(0).retransmit(&request(9, 22, 5)).unwrap();
    assert!(frames_of(&reply).is_empty());
    assert!(matches!(
        net.at(0).retransmit(&request(8, 1, 1)),
        Err(ServerError::Transport(TransportError::SessionMismatch { expected: 9, got: 8 }))
    ));
}

#[test]
fn a_server_leads_only_once() {
    let mut server = open(0, &ClusterConfig::new(3, 1), 0);
    server.start_as_leader(clock(), SimStorage::new()).unwrap();
    assert_eq!(server.role(), Role::Leader);
    assert!(matches!(
        server.start_as_leader(clock(), SimStorage::new()),
        Err(ServerError::WrongRole("start requires follower"))
    ));
    assert_eq!(server.role(), Role::Leader);
    // Nor does a won election make it anything else.
    let won = ElectionOutcome::Won { epoch: 2, sync_to: SeqNo(0) };
    assert!(matches!(
        server.promote(won, clock(), SimStorage::new()),
        Err(ServerError::WrongRole("promote requires follower"))
    ));
    assert_eq!(server.role(), Role::Leader);
}

#[test]
fn a_journal_that_cannot_be_led_from_is_refused() {
    let dir = b"/node-0";
    let mut disk = SimStorage::new();
    let mut rec = Journal::open_with(JournalConfig::new(dir), &mut disk).unwrap();
    rec.journal.reseat_to(&mut disk, SeqNo(5)).unwrap();
    let tick = Frame::new(SeqNo(5), Timestamp(1), 1, FrameKind::Tick, vec![]);
    rec.journal.append(&mut disk, &tick).unwrap();
    let mut server: BankServer = Server::open_follower(
        0,
        ClusterConfig::new(3, 1),
        (),
        dir,
        disk,
        SimStorage::new(),
        0,
    )
    .unwrap();
    assert!(matches!(
        server.start_as_leader(clock(), SimStorage::new()),
        Err(ServerError::Node(NodeError::UncoveredHistory { journal_first: SeqNo(5) }))
    ));
    assert_ne!(server.role(), Role::Leader);
}
