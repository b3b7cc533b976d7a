//! A discrete-event simulator of failure detectors in a cluster of nodes that
//! exchange heartbeats over an unreliable network.
//!
//! The library holds the event queue, the clock, the network model, the
//! integer-valued detectors (fixed timeout and gossip-assisted suspicion), the
//! sliding windows of inter-arrival samples that the accrual detectors read,
//! the metrics collector and the simulation engine that drives them all.
pub mod clock;
pub mod config;
pub mod node;
pub mod event;
pub mod random;
pub mod network;
pub mod node_map;
pub mod detector;
pub mod metrics;
pub mod engine;
pub mod scenario;
