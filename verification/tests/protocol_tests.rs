use sheaf_automata::protocol::{circular_wait_deadlock, deadlock_free_ring, mutex_protocol, AgentConfig, Protocol, TransitionRule};
use sheaf_automata::DeadlockResult;

#[test]
fn test_agent_config() {
    let agent = AgentConfig::new(0, "A", vec!["idle".into(), "active".into()]);
    assert_eq!(agent.n_states(), 2);
}

#[test]
fn test_protocol_creation() {
    let mut p = Protocol::new("TestProtocol");
    p.add_agent(AgentConfig::new(0, "A", vec!["x".into(), "y".into()]));
    p.add_agent(AgentConfig::new(1, "B", vec!["x".into(), "y".into()]));
    assert_eq!(p.n_agents(), 2);
    assert_eq!(p.config_dim(), 4);
}

#[test]
fn test_mutex_protocol() {
    let p = mutex_protocol(3, 2);
    assert_eq!(p.n_agents(), 3);
}

#[test]
fn test_circular_wait() {
    let p = circular_wait_deadlock(3);
    assert_eq!(p.n_agents(), 3);
    assert_eq!(p.rules.len(), 6);
}

#[test]
fn agents_keep_their_fields() {
    let a = AgentConfig::new(7, "Seven", vec!["s".into()]).with_neighbors(vec![1, 2]);
    assert_eq!(a.id, 7);
    assert_eq!(a.name, "Seven");
    assert_eq!(a.local_states, vec!["s".to_string()]);
    assert_eq!(a.neighbors, vec![1, 2]);
    assert!(AgentConfig::new(0, "Z", vec![]).neighbors.is_empty());
}

#[test]
fn rules_and_agents_are_kept_in_order() {
    let mut p = Protocol::new("P");
    assert_eq!(p.config_dim(), 0);
    p.add_agent(AgentConfig::new(0, "A", vec!["x".into()]));
    p.add_agent(AgentConfig::new(1, "B", vec!["x".into(), "y".into(), "z".into()]));
    p.add_rule(TransitionRule { agent: 1, from_state: 0, to_state: 2, guards: vec![(0, 0)] });
    assert_eq!(p.name, "P");
    assert_eq!(p.config_dim(), 4);
    assert_eq!(p.agents[1].name, "B");
    assert_eq!(p.rules.len(), 1);
    assert_eq!(p.rules[0].guards, vec![(0, 0)]);
}

#[test]
fn mutex_agents_neighbour_every_other_agent() {
    let p = mutex_protocol(12, 1);
    assert_eq!(p.name, "MutexProtocol");
    assert!(p.rules.is_empty());
    for (i, a) in p.agents.iter().enumerate() {
        assert_eq!(a.id, i);
        assert_eq!(a.name, format!("Agent{}", i));
        assert_eq!(a.local_states, vec!["idle".to_string(), "waiting".to_string(), "critical".to_string()]);
        let expected: Vec<usize> = (0..12).filter(|&j| j != i).collect();
        assert_eq!(a.neighbors, expected);
    }
    assert_eq!(p.agents[11].name, "Agent11");
    assert_eq!(p.config_dim(), 36);
    assert!(mutex_protocol(0, 0).agents.is_empty());
}

#[test]
fn ring_nodes_neighbour_predecessor_and_successor() {
    let p = deadlock_free_ring(4);
    assert_eq!(p.name, "DeadlockFreeRing");
    assert!(p.rules.is_empty());
    assert_eq!(p.agents[0].neighbors, vec![3, 1]);
    assert_eq!(p.agents[1].neighbors, vec![0, 2]);
    assert_eq!(p.agents[3].neighbors, vec![2, 0]);
    assert_eq!(p.agents[2].name, "Node2");
    assert_eq!(p.agents[2].local_states, vec!["idle".to_string(), "active".to_string()]);
    for a in &p.agents {
        for &b in &a.neighbors {
            assert!(p.agents[b].neighbors.contains(&a.id));
        }
    }
    let single = deadlock_free_ring(1);
    assert_eq!(single.agents[0].neighbors, vec![0, 0]);
    assert!(deadlock_free_ring(0).agents.is_empty());
}

#[test]
fn circular_wait_nodes_wait_on_their_successor() {
    let p = circular_wait_deadlock(3);
    assert_eq!(p.name, "CircularWait");
    for i in 0..3 {
        let next = (i + 1) % 3;
        assert_eq!(p.agents[i].neighbors, vec![next]);
        assert_eq!(p.agents[i].name, format!("Node{}", i));
        assert_eq!(p.agents[i].local_states, vec!["idle".to_string(), "waiting".to_string(), "held".to_string()]);
        let r0 = &p.rules[2 * i];
        let r1 = &p.rules[2 * i + 1];
        assert_eq!((r0.agent, r0.from_state, r0.to_state), (i, 0, 1));
        assert!(r0.guards.is_empty());
        assert_eq!((r1.agent, r1.from_state, r1.to_state), (i, 1, 2));
        assert_eq!(r1.guards, vec![(next, 0)]);
    }
}

#[test]
fn deadlock_verdict_follows_first_cohomology() {
    let free = DeadlockResult::from_h1_dimension(0);
    assert!(!free.has_deadlock);
    assert_eq!(free.obstruction_dimension, 0);
    assert!(free.obstructions.is_empty());
    let stuck = DeadlockResult::from_h1_dimension(11);
    assert!(stuck.has_deadlock);
    assert_eq!(stuck.obstruction_dimension, 11);
    assert_eq!(stuck.obstructions.len(), 11);
    assert_eq!(stuck.obstructions[0], "obstruction_class_0");
    assert_eq!(stuck.obstructions[10], "obstruction_class_10");
}
