//! A deterministic state-machine replication toolkit: canonical encoding,
//! checksummed frames, a write-ahead journal, snapshots, a sequencing node,
//! gap-filling transport, quorum commit and elections.

use vstd::prelude::*;

pub mod bus;
pub mod codec;
pub mod commit;
pub mod crc32c;
pub mod derive;
pub mod durability;
pub mod election;
pub mod epoch;
pub mod frame;
pub mod gateway;
pub mod journal;
pub mod le;
pub mod listing;
pub mod machine;
pub mod message;
pub mod node;
pub mod paths;
pub mod persist;
pub mod quorum;
pub mod raft_node;
pub mod recovery;
pub mod rng;
pub mod sbe;
pub mod segment;
pub mod seq;
pub mod server;
pub mod service;
pub mod sim;
pub mod sim_storage;
pub mod snapshot;
pub mod storage;
pub mod text;
pub mod timer;
pub mod transport;
pub mod votes;
