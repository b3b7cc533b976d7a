//! The integer-valued parts of a scenario configuration.
use vstd::prelude::*;

use crate::node::NodeId;

verus! {

/// Simulation length and seed.
#[derive(Debug, Clone, Copy)]
pub struct SimulationConfig {
    /// Maximum simulation ticks.
    pub max_ticks: u64,
    /// RNG seed for deterministic replay.
    pub seed: u64,
}

/// Cluster size and heartbeat rate.
#[derive(Debug, Clone, Copy)]
pub struct ClusterConfig {
    /// Number of nodes in the cluster; nodes are numbered from 1.
    pub node_count: u32,
    /// Ticks between heartbeat sends.
    pub heartbeat_interval: u64,
}

/// Which detection strategy a scenario uses.
#[derive(Debug, Clone, Copy, PartialEq, Eq, Structural)]
pub enum DetectorStrategy {
    FixedTimeout,
    Adaptive,
    Gossip,
    PhiAccrual,
    AdaptiveAccrual,
    /// User-defined strategy.
    Custom,
}

/// Types of faults that can be injected.
#[derive(Debug, Clone, Copy, PartialEq, Eq, Structural)]
pub enum FaultKind {
    Crash,
    Recover,
    PartitionStart,
    PartitionEnd,
}

/// A single fault injection event in the schedule.
#[derive(Debug, Clone)]
pub struct FaultConfig {
    /// Tick at which the fault occurs.
    pub tick: u64,
    /// Type of fault.
    pub kind: FaultKind,
    /// Target node (for crash/recover).
    pub node: Option<NodeId>,
    /// Groups of node ids for partition events. Each group can communicate
    /// internally but not with other groups.
    pub groups: Option<Vec<Vec<NodeId>>>,
}

/// Output/export configuration.
#[derive(Debug, Clone)]
pub struct OutputConfig {
    /// Directory to write results to.
    pub dir: Option<String>,
    /// Export format: "csv" or "json".
    pub format: Option<String>,
    /// When true, record per-tick suspicion levels from accrual detectors.
    pub phi_log: Option<bool>,
}

} // verus!
