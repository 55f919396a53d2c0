# ticktape

A toolkit for deterministic state-machine replication, written in Verus. A
single sequencer puts inputs into one total order, journals them, and applies
them to a deterministic service; everything else (snapshots, followers,
gateways, failover) is derived from that sequence and can be rebuilt from it.

The library under `src/` is verified: what its functions do is proved against
their contracts, but for the wrappers around outside code named at the end, and
the properties that span functions are public proof functions named `law_..`.

| where | what |
|---|---|
| `codec`, `derive`, `sbe`, `le`, `crc32c` | canonical encoding, the text of derived codecs, a fixed-layout binding, checksums |
| `frame`, `segment`, `journal`, `recovery`, `durability` | frames, segment files, the write-ahead journal, what recovery makes of a disk, what survives power loss |
| `snapshot`, `paths`, `listing`, `storage` | snapshot files and the model of a disk |
| `service`, `timer`, `machine`, `node`, `quorum`, `bus` | the service trait, deterministic timers, and the sequencing node |
| `commit`, `election`, `epoch`, `persist`, `votes`, `raft_node` | quorum commit, elections with durable votes, epoch fences, and a node ordered by Raft |
| `transport` | packets, in-order delivery over a lossy feed, retransmission, replicas, a slot ring |
| `gateway` | sessions, exactly-once admission, event replay |
| `server` | a replicated server: following, leading, failover, metrics |
| `sim`, `sim_storage`, `rng` | seeded simulation under storage faults |
| `message`, `text`, `seq` | texts of errors, numbers |

The journal, the node and everything above them work on any `Storage`. Its
contract models a disk as files with a synced and an unsynced part, so
durability can be stated and proved. `sim_storage` implements it in memory, with
power loss.

`app/` is ordinary Rust around the library: files, clocks, sockets, threads,
`io_uring`, shared memory, the token streams of the derives, the fuzzer's
command line and the benchmarks. `tests/` holds the tests.

What the proofs take for granted about outside code stands next to the
`external_body` wrappers: `raft_node` (the `raft` crate), `journal` (the
monotonic clock and the durations of std), `codec::collections` and `message`
(UTF-8 decoding in std).
