use faultsim::node::{Node, NodeState};

#[test]
fn node_state_transitions() {
    let mut node = Node::new(1);
    assert!(node.is_alive());
    node.crash();
    assert!(!node.is_alive());
    node.recover();
    assert!(node.is_alive());
}

#[test]
fn node_defaults_and_config() {
    let node = Node::new(4);
    assert_eq!(node.id, 4);
    assert_eq!(node.heartbeat_interval, 100);
    assert_eq!(node.detector_interval, 100);
    assert!(node.peers.is_empty());

    let node = Node::with_config(2, 30, 40, vec![1, 3]);
    assert_eq!(node.id, 2);
    assert_eq!(node.state, NodeState::Alive);
    assert_eq!(node.heartbeat_interval, 30);
    assert_eq!(node.detector_interval, 40);
    assert_eq!(node.peers, vec![1, 3]);
}

#[test]
fn crash_keeps_configuration() {
    let mut node = Node::with_config(5, 10, 20, vec![6]);
    node.crash();
    assert_eq!(node.state, NodeState::Crashed);
    assert_eq!(node.peers, vec![6]);
    assert_eq!(node.heartbeat_interval, 10);
}
