//! A single Raft node: its role, term, vote, and replicated log.

use crate::message::{log_view, LogEntry, LogEntryView};
use std::collections::BTreeSet;
use vstd::prelude::*;

verus! {

#[derive(Clone, Copy, Debug, PartialEq, Eq, Structural)]
pub enum Role {
    Follower,
    Candidate,
    Leader,
}

/// The lower-case name under which a role is printed.
pub open spec fn role_name(role: Role) -> Seq<char> {
    match role {
        Role::Follower => "follower"@,
        Role::Candidate => "candidate"@,
        Role::Leader => "leader"@,
    }
}

impl Role {
    /// The role's printed name: "follower", "candidate" or "leader".
    pub fn name(&self) -> (s: String)
        ensures
            s@ == role_name(*self),
    {
        match self {
            Role::Follower => String::from_str("follower"),
            Role::Candidate => String::from_str("candidate"),
            Role::Leader => String::from_str("leader"),
        }
    }
}

#[derive(Clone, Debug)]
pub struct Node {
    pub id: usize,
    pub role: Role,
    pub current_term: u64,
    pub voted_for: Option<usize>,
    pub log: Vec<LogEntry>,
    /// Number of log entries known to be committed (0 = none).
    pub commit_index: usize,
    pub alive: bool,
    // Volatile leader state, sized to the cluster and only meaningful
    // while `role == Leader`.
    pub next_index: Vec<usize>,
    pub match_index: Vec<usize>,
    // Timers, expressed as absolute simulation ticks.
    pub election_deadline: u64,
    pub heartbeat_deadline: u64,
    pub votes_received: BTreeSet<usize>,
}

/// A node as a mathematical value.
pub struct NodeView {
    pub id: usize,
    pub role: Role,
    pub current_term: u64,
    pub voted_for: Option<usize>,
    pub log: Seq<LogEntryView>,
    pub commit_index: usize,
    pub alive: bool,
    pub next_index: Seq<usize>,
    pub match_index: Seq<usize>,
    pub election_deadline: u64,
    pub heartbeat_deadline: u64,
    pub votes_received: Set<usize>,
}

impl View for Node {
    type V = NodeView;

    open spec fn view(&self) -> NodeView {
        NodeView {
            id: self.id,
            role: self.role,
            current_term: self.current_term,
            voted_for: self.voted_for,
            log: log_view(self.log@),
            commit_index: self.commit_index,
            alive: self.alive,
            next_index: self.next_index@,
            match_index: self.match_index@,
            election_deadline: self.election_deadline,
            heartbeat_deadline: self.heartbeat_deadline,
            votes_received: self.votes_received@,
        }
    }
}

/// A node as it joins a cluster of `cluster_size` nodes: a follower in
/// term 0 with an empty log, no vote, and fresh leader bookkeeping.
pub open spec fn fresh_node(id: usize, cluster_size: nat) -> NodeView {
    NodeView {
        id,
        role: Role::Follower,
        current_term: 0,
        voted_for: None,
        log: Seq::empty(),
        commit_index: 0,
        alive: true,
        next_index: Seq::new(cluster_size, |i: int| 1usize),
        match_index: Seq::new(cluster_size, |i: int| 0usize),
        election_deadline: 0,
        heartbeat_deadline: 0,
        votes_received: Set::empty(),
    }
}

impl NodeView {
    pub open spec fn last_log_index(self) -> nat {
        self.log.len()
    }

    /// The term of the last entry, or 0 for an empty log.
    pub open spec fn last_log_term(self) -> u64 {
        if self.log.len() == 0 {
            0
        } else {
            self.log.last().term
        }
    }

    /// Raft's up-to-date check: a log ending in a higher term wins; on
    /// equal last terms, the log with at least as many entries wins.
    pub open spec fn up_to_date(self, other_last_term: u64, other_last_index: int) -> bool {
        if other_last_term != self.last_log_term() {
            other_last_term > self.last_log_term()
        } else {
            other_last_index >= self.last_log_index()
        }
    }

    /// The node after it adopts `term` as a follower with no vote.
    pub open spec fn become_follower(self, term: u64) -> NodeView {
        NodeView {
            role: Role::Follower,
            current_term: term,
            voted_for: None,
            votes_received: Set::empty(),
            ..self
        }
    }
}

impl Node {
    pub fn new(id: usize, cluster_size: usize) -> (node: Self)
        ensures
            node@ == fresh_node(id, cluster_size as nat),
    {
        let mut next_index: Vec<usize> = Vec::new();
        let mut match_index: Vec<usize> = Vec::new();
        let mut i: usize = 0;
        while i < cluster_size
            invariant
                i <= cluster_size,
                next_index@ == Seq::new(i as nat, |k: int| 1usize),
                match_index@ == Seq::new(i as nat, |k: int| 0usize),
            decreases cluster_size - i,
        {
            next_index.push(1);
            match_index.push(0);
            i = i + 1;
            assert(next_index@ =~= Seq::new(i as nat, |k: int| 1usize));
            assert(match_index@ =~= Seq::new(i as nat, |k: int| 0usize));
        }
        let node = Node {
            id,
            role: Role::Follower,
            current_term: 0,
            voted_for: None,
            log: Vec::new(),
            commit_index: 0,
            alive: true,
            next_index,
            match_index,
            election_deadline: 0,
            heartbeat_deadline: 0,
            votes_received: BTreeSet::new(),
        };
        assert(node@.log =~= Seq::<LogEntryView>::empty());
        node
    }

    pub fn last_log_index(&self) -> (r: usize)
        ensures
            r == self@.last_log_index(),
    {
        self.log.len()
    }

    pub fn last_log_term(&self) -> (r: u64)
        ensures
            r == self@.last_log_term(),
    {
        if self.log.len() == 0 {
            0
        } else {
            self.log[self.log.len() - 1].term
        }
    }

    /// Raft's up-to-date check (section 5.4.1): a candidate's log wins a
    /// tie on term by having at least as many entries.
    pub fn log_is_at_least_as_up_to_date(&self, other_last_term: u64, other_last_index: usize) -> (r:
        bool)
        ensures
            r == self@.up_to_date(other_last_term, other_last_index as int),
    {
        let mine = self.last_log_term();
        if other_last_term != mine {
            other_last_term > mine
        } else {
            other_last_index >= self.last_log_index()
        }
    }

    pub fn become_follower(&mut self, term: u64)
        ensures
            final(self)@ == old(self)@.become_follower(term),
    {
        self.role = Role::Follower;
        self.current_term = term;
        self.voted_for = None;
        self.votes_received.clear();
    }
}

} // verus!
