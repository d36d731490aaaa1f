//! Raft consensus: data types, messages, durable state and the node itself.

pub mod agreement;
pub mod batch;
pub mod chunks;
pub mod cluster;
pub mod delivery;
pub mod durability;
pub mod duties;
pub mod exchange;
pub mod history;
pub mod laws;
pub mod machine;
pub mod membership;
pub mod model;
pub mod moves;
pub mod node;
pub mod outcomes;
pub mod peers;
pub mod progress;
pub mod promises;
pub mod quorum;
pub mod reach;
pub mod reads;
pub mod replay;
pub mod rounds;
pub mod rpc;
pub mod safety;
pub mod storage;
pub mod ties;
pub mod transport;
pub mod types;
pub mod upkeep;
