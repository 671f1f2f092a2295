//! A replicated key-value store that commits writes with Paxos-Commit.

pub mod agreement;
pub mod answers;
pub mod client;
pub mod commit;
pub mod db;
pub mod effects;
pub mod laws;
pub mod membership;
pub mod messages;
pub mod metrics;
pub mod model;
pub mod node;
pub mod progress;
mod random;
pub mod reads;
pub mod ring;
pub mod types;
pub mod votes;
pub mod workload;
