use vstd::prelude::*;

use crate::clock::Tick;

verus! {

/// Unique identifier for a node in the cluster.
pub type NodeId = u64;

/// Possible states of a simulated node.
#[derive(Debug, Clone, Copy, PartialEq, Eq, Structural)]
pub enum NodeState {
    /// Node is running and sending heartbeats.
    Alive,
    /// Node has crashed and is not sending messages.
    Crashed,
}

/// A simulated cluster node.
#[derive(Debug, Clone)]
pub struct Node {
    pub id: NodeId,
    pub state: NodeState,
    /// Ticks between heartbeat sends.
    pub heartbeat_interval: Tick,
    /// Ticks between detector checks.
    pub detector_interval: Tick,
    /// IDs of all other nodes in the cluster.
    pub peers: Vec<NodeId>,
}

impl Node {
    /// A live node with the default intervals of 100 ticks and no peers.
    pub fn new(id: NodeId) -> (n: Self)
        ensures
            n.id == id,
            n.state == NodeState::Alive,
            n.heartbeat_interval == 100,
            n.detector_interval == 100,
            n.peers@.len() == 0,
    {
        Self {
            id,
            state: NodeState::Alive,
            heartbeat_interval: 100,
            detector_interval: 100,
            peers: Vec::new(),
        }
    }

    /// A live node with the given intervals and peers.
    pub fn with_config(
        id: NodeId,
        heartbeat_interval: Tick,
        detector_interval: Tick,
        peers: Vec<NodeId>,
    ) -> (n: Self)
        ensures
            n.id == id,
            n.state == NodeState::Alive,
            n.heartbeat_interval == heartbeat_interval,
            n.detector_interval == detector_interval,
            n.peers@ == peers@,
    {
        Self { id, state: NodeState::Alive, heartbeat_interval, detector_interval, peers }
    }

    /// Whether the node is running.
    pub fn is_alive(&self) -> (b: bool)
        ensures
            b == (self.state == NodeState::Alive),
    {
        self.state == NodeState::Alive
    }

    /// Marks the node as crashed; nothing else about it changes.
    pub fn crash(&mut self)
        ensures
            *final(self) == (Node { state: NodeState::Crashed, ..*old(self) }),
    {
        self.state = NodeState::Crashed;
    }

    /// Marks the node as alive again; nothing else about it changes.
    pub fn recover(&mut self)
        ensures
            *final(self) == (Node { state: NodeState::Alive, ..*old(self) }),
    {
        self.state = NodeState::Alive;
    }
}

} // verus!
