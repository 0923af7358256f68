//! faultline: a deterministic simulation tester for distributed systems.
//!
//! It runs a small distributed system (replicated nodes talking over a
//! simulated network) inside a fully deterministic world: one seed drives all
//! randomness and a logical-time scheduler drives all execution. The simulator
//! injects faults -- dropped and reordered messages, network partitions, node
//! crashes -- and checks the system's invariants. A run is a pure function of
//! its seed and its configuration, and the contracts say which function.

pub mod checker;
pub mod counting;
pub mod faults;
pub mod kv;
pub mod kv_run_laws;
pub mod linearizability;
pub mod net;
pub mod raft;
pub mod raft_cluster;
pub mod raft_laws;
pub mod raft_range;
pub mod raft_run_laws;
pub mod raft_runner;
pub mod raft_safety;
pub mod runner;
pub mod shrink;
pub mod sim;
pub mod text;
