//! Behaviour of the simulation and its nodes on concrete inputs.

use quorum::{LogEntry, Node, Role, Simulation};

#[test]
fn quorum_is_a_strict_majority() {
    assert_eq!(Simulation::new(1, 1).quorum_size(), 1);
    assert_eq!(Simulation::new(2, 1).quorum_size(), 2);
    assert_eq!(Simulation::new(4, 1).quorum_size(), 3);
    assert_eq!(Simulation::new(5, 1).quorum_size(), 3);
}

#[test]
fn new_cluster_is_all_followers() {
    let sim = Simulation::new(5, 42);
    assert_eq!(sim.tick, 0);
    assert!(sim.events.is_empty());
    for (i, node) in sim.nodes.iter().enumerate() {
        assert_eq!(node.id, i);
        assert_eq!(node.role, Role::Follower);
        assert_eq!(node.current_term, 0);
        assert_eq!(node.voted_for, None);
        assert!(node.log.is_empty());
        assert!(node.alive);
        assert_eq!(node.next_index, vec![1; 5]);
        assert_eq!(node.match_index, vec![0; 5]);
        assert!((150..=300).contains(&node.election_deadline));
    }
    assert!(sim.leader().is_none());
}

#[test]
fn no_leader_rejects_client_request() {
    let mut sim = Simulation::new(3, 9);
    assert_eq!(sim.submit_client_request("x"), Err("no leader available"));
    assert!(sim.events.is_empty());
}

#[test]
fn kill_and_revive_are_traced() {
    let mut sim = Simulation::new(3, 4);
    sim.kill_node(2);
    assert!(!sim.nodes[2].alive);
    assert_eq!(sim.events.last().unwrap(), "[tick 0] node 2 killed");
    sim.run(1000);
    sim.revive_node(2);
    assert!(sim.nodes[2].alive);
    assert_eq!(sim.nodes[2].role, Role::Follower);
    assert_eq!(sim.events.last().unwrap(), "[tick 1000] node 2 revived");
    let d = sim.nodes[2].election_deadline;
    assert!(d >= 1150 && d <= 1300);
}

#[test]
fn single_node_elects_itself() {
    let mut sim = Simulation::new(1, 3);
    let deadline = sim.nodes[0].election_deadline;
    sim.run(deadline);
    assert_eq!(sim.nodes[0].role, Role::Leader);
    assert_eq!(sim.nodes[0].current_term, 1);
    assert_eq!(sim.events[0], format!("[tick {}] node 0 starts election for term 1", deadline));
    assert_eq!(sim.events[1], format!("[tick {}] node 0 becomes leader for term 1", deadline));
    sim.submit_client_request("set a=1").unwrap();
    assert_eq!(sim.nodes[0].log.len(), 1);
    assert_eq!(sim.nodes[0].match_index[0], 1);
    assert_eq!(
        sim.events[2],
        format!("[tick {}] client request 'set a=1' appended at node 0 (log index 1)", deadline)
    );
}

#[test]
fn same_seed_same_trace() {
    let mut a = Simulation::new(5, 77);
    let mut b = Simulation::new(5, 77);
    a.run(800);
    b.run(800);
    assert_eq!(a.events, b.events);
    for (x, y) in a.nodes.iter().zip(b.nodes.iter()) {
        assert_eq!(x.role, y.role);
        assert_eq!(x.current_term, y.current_term);
        assert_eq!(x.log, y.log);
    }
}

#[test]
fn at_most_one_leader_in_every_term() {
    let mut sim = Simulation::new(5, 123);
    for _ in 0..2000 {
        sim.step();
        for term in 0..=sim.nodes.iter().map(|n| n.current_term).max().unwrap() {
            assert!(sim.leaders_in_term(term).len() <= 1);
        }
    }
}

#[test]
fn terms_never_decrease() {
    let mut sim = Simulation::new(5, 8);
    let mut last: Vec<u64> = sim.nodes.iter().map(|n| n.current_term).collect();
    for _ in 0..1500 {
        sim.step();
        for (i, node) in sim.nodes.iter().enumerate() {
            assert!(node.current_term >= last[i]);
            last[i] = node.current_term;
        }
    }
}

#[test]
fn leaders_in_term_lists_the_leader() {
    let mut sim = Simulation::new(3, 7);
    sim.run(1500);
    let leader = sim.leader().unwrap();
    let (id, term) = (leader.id, leader.current_term);
    assert_eq!(sim.leaders_in_term(term), vec![id]);
    assert!(sim.leaders_in_term(term + 1).is_empty());
}

#[test]
fn no_commit_without_a_majority() {
    let mut sim = Simulation::new(5, 2);
    sim.run(500);
    let leader = sim.leader().unwrap().id;
    let mut killed = 0;
    for id in 0..5 {
        if id != leader && killed < 3 {
            sim.kill_node(id);
            killed += 1;
        }
    }
    sim.submit_client_request("lonely").unwrap();
    sim.run(300);
    let node = &sim.nodes[leader];
    assert_eq!(node.role, Role::Leader);
    assert_eq!(node.commit_index, 0);
    assert_eq!(node.log.len(), 1);
}

#[test]
fn followers_replicate_the_leader_log() {
    let mut sim = Simulation::new(5, 2);
    sim.run(500);
    sim.submit_client_request("a").unwrap();
    sim.submit_client_request("b").unwrap();
    sim.run(500);
    let leader = sim.leader().unwrap();
    assert_eq!(leader.commit_index, 2);
    for node in &sim.nodes {
        assert_eq!(node.log, leader.log);
        assert_eq!(node.commit_index, 2);
    }
    assert!(sim.events.iter().any(|e| e.ends_with(&format!("node {} advances commit index to 2", leader.id))));
}

#[test]
fn node_log_queries() {
    let mut node = Node::new(3, 4);
    assert_eq!(node.last_log_index(), 0);
    assert_eq!(node.last_log_term(), 0);
    node.log.push(LogEntry { term: 2, command: "a".to_string() });
    node.log.push(LogEntry { term: 5, command: "b".to_string() });
    assert_eq!(node.last_log_index(), 2);
    assert_eq!(node.last_log_term(), 5);
    assert!(node.log_is_at_least_as_up_to_date(6, 0));
    assert!(!node.log_is_at_least_as_up_to_date(4, 10));
    assert!(node.log_is_at_least_as_up_to_date(5, 2));
    assert!(!node.log_is_at_least_as_up_to_date(5, 1));
}

#[test]
fn become_follower_resets_vote() {
    let mut node = Node::new(0, 3);
    node.role = Role::Candidate;
    node.current_term = 4;
    node.voted_for = Some(0);
    node.votes_received.insert(0);
    node.votes_received.insert(2);
    node.become_follower(7);
    assert_eq!(node.role, Role::Follower);
    assert_eq!(node.current_term, 7);
    assert_eq!(node.voted_for, None);
    assert!(node.votes_received.is_empty());
}

#[test]
fn role_names() {
    assert_eq!(Role::Follower.name(), "follower");
    assert_eq!(Role::Candidate.name(), "candidate");
    assert_eq!(Role::Leader.name(), "leader");
}

#[test]
fn vote_trace_names_both_nodes() {
    let mut sim = Simulation::new(3, 7);
    sim.run(1500);
    assert!(sim.events.iter().any(|e| e.contains(" grants vote to node ")));
    let term = sim.leader().unwrap().current_term;
    let id = sim.leader().unwrap().id;
    assert!(sim.events.iter().any(|e| e.ends_with(&format!("node {} becomes leader for term {}", id, term))));
}

#[test]
fn conflicting_follower_log_is_repaired() {
    let mut sim = Simulation::new(3, 5);
    for id in 0..3 {
        sim.nodes[id].current_term = 2;
    }
    for id in [0usize, 1] {
        sim.nodes[id].log = vec![LogEntry { term: 1, command: "a".to_string() }];
    }
    sim.nodes[2].log = vec![LogEntry { term: 2, command: "x".to_string() }];
    sim.run(1000);
    let leader_id = sim.leader().expect("a leader emerges").id;
    // An entry of an older term is not committed by counting replicas alone.
    assert_eq!(sim.nodes[leader_id].commit_index, 0);
    sim.submit_client_request("z").unwrap();
    sim.run(500);
    let leader = sim.leader().unwrap();
    assert_eq!(leader.id, leader_id);
    assert_eq!(leader.log.len(), 2);
    assert_eq!(leader.commit_index, 2);
    for node in &sim.nodes {
        assert_eq!(node.log, leader.log);
    }
}

#[test]
fn higher_term_append_entries_clears_old_vote() {
    let mut sim = Simulation::new(3, 1);
    sim.nodes[0].current_term = 2;
    sim.nodes[1].current_term = 2;
    sim.nodes[2].current_term = 1;
    sim.nodes[2].voted_for = Some(0);
    sim.kill_node(2);
    sim.run(1000);
    let term = sim.leader().expect("two live nodes elect a leader").current_term;
    assert!(term >= 3);
    sim.revive_node(2);
    sim.run(60);
    assert_eq!(sim.nodes[2].current_term, term);
    assert_eq!(sim.nodes[2].role, Role::Follower);
    assert_eq!(sim.nodes[2].voted_for, None);
}

#[test]
fn run_with_commands_matches_stepping_by_hand() {
    let commands = ["set x=1", "set y=2", "set z=3"];
    let mut a = Simulation::new(5, 7);
    let went_in = a.run_with_commands(2000, &commands);

    let mut b = Simulation::new(5, 7);
    let mut submitted = 0usize;
    for _ in 0..2000 {
        b.step();
        if submitted < commands.len() && b.leader().is_some() {
            if b.submit_client_request(commands[submitted]).is_ok() {
                submitted += 1;
            }
        }
    }
    assert_eq!(went_in, 3);
    assert_eq!(went_in, submitted);
    assert_eq!(a.events, b.events);
    assert_eq!(a.tick, 2000);
    let leader = a.leader().expect("a leader after 2000 ticks");
    assert_eq!(leader.log.len(), 3);
    assert_eq!(leader.log[0].command, "set x=1");
    assert_eq!(leader.log[2].command, "set z=3");
}

#[test]
fn run_with_commands_without_time_submits_nothing() {
    let mut sim = Simulation::new(3, 1);
    assert_eq!(sim.run_with_commands(0, &["a"]), 0);
    assert_eq!(sim.tick, 0);
    assert!(sim.events.is_empty());
}

#[test]
fn most_committed_picks_the_last_of_the_highest() {
    let mut sim = Simulation::new(4, 3);
    assert_eq!(sim.most_committed(), Some(3));
    sim.nodes[1].commit_index = 5;
    sim.nodes[2].commit_index = 5;
    sim.nodes[3].commit_index = 2;
    assert_eq!(sim.most_committed(), Some(2));
    sim.nodes[0].commit_index = 9;
    assert_eq!(sim.most_committed(), Some(0));
    assert_eq!(Simulation::new(0, 3).most_committed(), None);
}

#[test]
fn accessors_show_the_fields() {
    let mut sim = Simulation::new(3, 5);
    sim.run(400);
    assert_eq!(sim.tick(), sim.tick);
    assert_eq!(sim.tick(), 400);
    assert_eq!(sim.events(), &sim.events);
    assert_eq!(sim.nodes().len(), 3);
    for (a, b) in sim.nodes().iter().zip(sim.nodes.iter()) {
        assert_eq!(a.current_term, b.current_term);
        assert_eq!(a.role, b.role);
    }
}

#[test]
fn a_term_never_gets_a_second_leader() {
    let mut sim = Simulation::new(5, 11);
    let mut leaders: Vec<(u64, usize)> = Vec::new();
    for round in 0..6 {
        for _ in 0..600 {
            sim.step();
            for node in &sim.nodes {
                if node.role == Role::Leader {
                    match leaders.iter().find(|(t, _)| *t == node.current_term) {
                        Some((_, id)) => assert_eq!(*id, node.id),
                        None => leaders.push((node.current_term, node.id)),
                    }
                }
            }
        }
        if let Some(id) = sim.leader().map(|n| n.id) {
            sim.kill_node(id);
            if round % 2 == 1 {
                sim.revive_node((id + 1) % 5);
            }
        }
        for i in 0..5 {
            if !sim.nodes[i].alive && round % 3 == 2 {
                sim.revive_node(i);
            }
        }
    }
    assert!(leaders.len() >= 2);
}
