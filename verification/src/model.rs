//! The simulation as a mathematical state machine: every operation of
//! `Simulation` is specified as a function from one `SimulationView` to
//! the next.

use crate::message::{EnvelopeView, LogEntryView, MessageView};
use crate::node::{fresh_node, NodeView, Role};
use crate::rng::{range_state, range_value, seed_state};
use crate::text::{
    commit_text, election_text, killed_text, leader_text, request_text, revived_text, tick_line,
    vote_text,
};
use vstd::prelude::*;

verus! {

/// The longest a log (or an index into one) can grow on this machine.
pub open spec fn log_limit() -> nat {
    (usize::MAX - 1) as nat
}

/// The whole simulation as a mathematical value.
pub struct SimulationView {
    pub nodes: Seq<NodeView>,
    pub tick: u64,
    pub events: Seq<Seq<char>>,
    pub inbox: Seq<EnvelopeView>,
    pub rng: u64,
    pub election_timeout_min: u64,
    pub election_timeout_max: u64,
    pub heartbeat_interval: u64,
    pub network_delay: u64,
}

/// Applies one entry of an AppendEntries at log position `idx`: an entry
/// already there with the same term is kept; one with another term is
/// dropped together with everything after it; past the end it is appended.
pub open spec fn merge_entry(log: Seq<LogEntryView>, idx: int, entry: LogEntryView) -> Seq<
    LogEntryView,
> {
    if log.len() > idx {
        if log[idx].term != entry.term {
            log.take(idx).push(entry)
        } else {
            log
        }
    } else {
        log.push(entry)
    }
}

/// Applies the entries of an AppendEntries one by one, the first at `idx`.
pub open spec fn merge_entries(log: Seq<LogEntryView>, idx: int, entries: Seq<LogEntryView>) -> Seq<
    LogEntryView,
>
    decreases entries.len(),
{
    if entries.len() == 0 {
        log
    } else {
        merge_entries(merge_entry(log, idx, entries[0]), idx + 1, entries.drop_first())
    }
}

/// How many of the peers below `k` other than `id` have `match_index >= idx`.
pub open spec fn peers_holding(match_index: Seq<usize>, id: int, idx: int, k: nat) -> nat
    decreases k,
{
    if k == 0 {
        0
    } else {
        let rest = peers_holding(match_index, id, idx, (k - 1) as nat);
        if k - 1 != id && match_index[k - 1] >= idx {
            rest + 1
        } else {
            rest
        }
    }
}

/// Whether leader `node` (index `id`, cluster of `n`) may commit through
/// log index `idx`: a strict majority, the leader counted, holds it, and the
/// entry there is from the leader's current term.
pub open spec fn committable(node: NodeView, id: int, n: nat, quorum: nat, idx: int) -> bool {
    &&& 1 + peers_holding(node.match_index, id, idx, n) >= quorum
    &&& node.log[idx - 1].term == node.current_term
}

/// The highest committable index from `idx` down to just above the commit
/// index, or the commit index when there is none.
pub open spec fn highest_committable(node: NodeView, id: int, n: nat, quorum: nat, idx: int) -> int
    decreases idx,
{
    if idx <= node.commit_index {
        node.commit_index as int
    } else if committable(node, id, n, quorum, idx) {
        idx
    } else {
        highest_committable(node, id, n, quorum, idx - 1)
    }
}

impl SimulationView {
    /// The state that `Simulation::new(node_count, seed)` builds.
    pub open spec fn initial(node_count: usize, seed: u64) -> SimulationView {
        let n = node_count as nat;
        SimulationView {
            nodes: Seq::new(n, |i: int| fresh_node(i as usize, n)),
            tick: 0,
            events: Seq::empty(),
            inbox: Seq::empty(),
            rng: seed_state(seed),
            election_timeout_min: 150,
            election_timeout_max: 300,
            heartbeat_interval: 50,
            network_delay: 10,
        }.deadlines_below(n)
    }

    /// Draws the first election deadline of each node below `k`, in order.
    pub open spec fn deadlines_below(self, k: nat) -> SimulationView
        decreases k,
    {
        if k == 0 {
            self
        } else {
            let s = self.deadlines_below((k - 1) as nat);
            let i = k - 1;
            SimulationView {
                rng: range_state(s.rng, s.election_timeout_min, s.election_timeout_max),
                nodes: s.nodes.update(
                    i,
                    NodeView {
                        election_deadline: range_value(
                            s.rng,
                            s.election_timeout_min,
                            s.election_timeout_max,
                        ),
                        ..s.nodes[i]
                    },
                ),
                ..s
            }
        }
    }

    pub open spec fn quorum(self) -> nat {
        self.nodes.len() / 2 + 1
    }

    pub open spec fn with_node(self, id: usize, node: NodeView) -> SimulationView {
        SimulationView { nodes: self.nodes.update(id as int, node), ..self }
    }

    pub open spec fn log_event(self, msg: Seq<char>) -> SimulationView {
        SimulationView { events: self.events.push(tick_line(self.tick, msg)), ..self }
    }

    pub open spec fn reset_election_timer(self, id: usize) -> SimulationView {
        let timeout = range_value(self.rng, self.election_timeout_min, self.election_timeout_max);
        SimulationView {
            rng: range_state(self.rng, self.election_timeout_min, self.election_timeout_max),
            nodes: self.nodes.update(
                id as int,
                NodeView {
                    election_deadline: (self.tick + timeout) as u64,
                    ..self.nodes[id as int]
                },
            ),
            ..self
        }
    }

    /// Puts a message on the bus, due `network_delay` ticks from now; a
    /// message to a dead node is dropped.
    pub open spec fn send(self, from: usize, to: usize, message: MessageView) -> SimulationView {
        if !self.nodes[to as int].alive {
            self
        } else {
            SimulationView {
                inbox: self.inbox.push(
                    EnvelopeView {
                        from,
                        to,
                        deliver_at: (self.tick + self.network_delay) as u64,
                        message,
                    },
                ),
                ..self
            }
        }
    }

    /// Sends `message` from `from` to every other node below `k`, in index order.
    pub open spec fn send_to_peers_below(self, from: usize, message: MessageView, k: nat) -> SimulationView
        decreases k,
    {
        if k == 0 {
            self
        } else {
            let s = self.send_to_peers_below(from, message, (k - 1) as nat);
            if k - 1 == from {
                s
            } else {
                s.send(from, (k - 1) as usize, message)
            }
        }
    }

    /// The AppendEntries that leader `id` sends to `peer`: everything from
    /// the peer's `next_index` on, with the index and term just before it.
    pub open spec fn heartbeat_message(self, id: usize, peer: usize) -> MessageView {
        let node = self.nodes[id as int];
        let next = node.next_index[peer as int];
        let prev: usize = if next >= 1 {
            (next - 1) as usize
        } else {
            0
        };
        MessageView::AppendEntries {
            term: node.current_term,
            leader_id: id,
            prev_log_index: prev,
            prev_log_term: if prev > 0 {
                node.log[prev - 1].term
            } else {
                0
            },
            entries: if next <= node.log.len() {
                node.log.subrange(next - 1, node.log.len() as int)
            } else {
                Seq::empty()
            },
            leader_commit: node.commit_index,
        }
    }

    /// The heartbeats of leader `id`, as it stands in `self`, to peers below `k`.
    pub open spec fn heartbeats_below(self, id: usize, k: nat) -> SimulationView
        decreases k,
    {
        if k == 0 {
            self
        } else {
            let s = self.heartbeats_below(id, (k - 1) as nat);
            if k - 1 == id {
                s
            } else {
                s.send(id, (k - 1) as usize, self.heartbeat_message(id, (k - 1) as usize))
            }
        }
    }

    pub open spec fn send_heartbeats(self, id: usize) -> SimulationView {
        let node = self.nodes[id as int];
        if !node.alive || node.role != Role::Leader {
            self
        } else {
            self.heartbeats_below(id, self.nodes.len())
        }
    }

    pub open spec fn become_leader(self, id: usize) -> SimulationView {
        let node = self.nodes[id as int];
        let len = node.log.len();
        let n = self.nodes.len();
        let s1 = self.with_node(
            id,
            NodeView {
                role: Role::Leader,
                next_index: Seq::new(n, |i: int| (len + 1) as usize),
                match_index: Seq::new(n, |i: int| 0usize).update(id as int, len as usize),
                ..node
            },
        );
        let s2 = s1.log_event(leader_text(id, node.current_term)).send_heartbeats(id);
        s2.with_node(
            id,
            NodeView {
                heartbeat_deadline: (s2.tick + s2.heartbeat_interval) as u64,
                ..s2.nodes[id as int]
            },
        )
    }

    pub open spec fn start_election(self, id: usize) -> SimulationView {
        let node = self.nodes[id as int];
        if !node.alive {
            self
        } else {
            let term = (node.current_term + 1) as u64;
            let s1 = self.with_node(
                id,
                NodeView {
                    role: Role::Candidate,
                    current_term: term,
                    voted_for: Some(id),
                    votes_received: Set::empty().insert(id),
                    ..node
                },
            );
            let s2 = s1.log_event(election_text(id, term)).reset_election_timer(id);
            let request = MessageView::RequestVote {
                term,
                candidate_id: id,
                last_log_index: s2.nodes[id as int].log.len() as usize,
                last_log_term: s2.nodes[id as int].last_log_term(),
            };
            let s3 = s2.send_to_peers_below(id, request, s2.nodes.len());
            if s3.nodes[id as int].votes_received.len() >= s3.quorum() {
                s3.become_leader(id)
            } else {
                s3
            }
        }
    }

    pub open spec fn handle_request_vote(
        self,
        id: usize,
        term: u64,
        candidate_id: usize,
        last_log_index: usize,
        last_log_term: u64,
    ) -> SimulationView {
        let node0 = self.nodes[id as int];
        if !node0.alive {
            self
        } else {
            let s1 = if term > node0.current_term {
                self.with_node(id, node0.become_follower(term))
            } else {
                self
            };
            let node = s1.nodes[id as int];
            let grant = term >= node.current_term && node.up_to_date(
                last_log_term,
                last_log_index as int,
            ) && (node.voted_for is None || node.voted_for == Some(candidate_id));
            let s2 = if grant {
                s1.with_node(id, NodeView { voted_for: Some(candidate_id), ..node }).reset_election_timer(
                    id,
                )
            } else {
                s1
            };
            let reply_term = s2.nodes[id as int].current_term;
            s2.log_event(vote_text(id, grant, candidate_id, reply_term)).send(
                id,
                candidate_id,
                MessageView::RequestVoteReply { term: reply_term, vote_granted: grant, voter_id: id },
            )
        }
    }

    pub open spec fn handle_request_vote_reply(
        self,
        id: usize,
        term: u64,
        vote_granted: bool,
        voter_id: usize,
    ) -> SimulationView {
        let node = self.nodes[id as int];
        if !node.alive {
            self
        } else if term > node.current_term {
            self.with_node(id, node.become_follower(term))
        } else if node.role != Role::Candidate || term != node.current_term {
            self
        } else if vote_granted {
            let s1 = self.with_node(
                id,
                NodeView { votes_received: node.votes_received.insert(voter_id), ..node },
            );
            if s1.nodes[id as int].votes_received.len() >= s1.quorum() {
                s1.become_leader(id)
            } else {
                s1
            }
        } else {
            self
        }
    }

    pub open spec fn handle_append_entries(
        self,
        id: usize,
        term: u64,
        leader_id: usize,
        prev_log_index: usize,
        prev_log_term: u64,
        entries: Seq<LogEntryView>,
        leader_commit: usize,
    ) -> SimulationView {
        let node0 = self.nodes[id as int];
        if !node0.alive {
            self
        } else if term < node0.current_term {
            self.send(
                id,
                leader_id,
                MessageView::AppendEntriesReply {
                    term: node0.current_term,
                    success: false,
                    follower_id: id,
                    match_index: 0,
                },
            )
        } else {
            let node1 = if term > node0.current_term {
                NodeView { role: Role::Follower, current_term: term, voted_for: None, ..node0 }
            } else {
                NodeView { role: Role::Follower, ..node0 }
            };
            let s1 = self.with_node(id, node1).reset_election_timer(id);
            let node = s1.nodes[id as int];
            let success = prev_log_index > 0 ==> (prev_log_index <= node.log.len()
                && node.log[prev_log_index - 1].term == prev_log_term);
            if success {
                let log = merge_entries(node.log, prev_log_index as int, entries);
                let commit_index = if leader_commit > node.commit_index {
                    if leader_commit <= log.len() {
                        leader_commit
                    } else {
                        log.len() as usize
                    }
                } else {
                    node.commit_index
                };
                s1.with_node(id, NodeView { log, commit_index, ..node }).send(
                    id,
                    leader_id,
                    MessageView::AppendEntriesReply {
                        term,
                        success: true,
                        follower_id: id,
                        match_index: (prev_log_index + entries.len()) as usize,
                    },
                )
            } else {
                s1.send(
                    id,
                    leader_id,
                    MessageView::AppendEntriesReply {
                        term,
                        success: false,
                        follower_id: id,
                        match_index: 0,
                    },
                )
            }
        }
    }

    pub open spec fn advance_commit_index(self, id: usize) -> SimulationView {
        let node = self.nodes[id as int];
        let new_commit = highest_committable(
            node,
            id as int,
            self.nodes.len(),
            self.quorum(),
            node.log.len() as int,
        );
        if new_commit > node.commit_index {
            self.with_node(id, NodeView { commit_index: new_commit as usize, ..node }).log_event(
                commit_text(id, new_commit as usize),
            )
        } else {
            self
        }
    }

    pub open spec fn handle_append_entries_reply(
        self,
        id: usize,
        term: u64,
        success: bool,
        follower_id: usize,
        match_index: usize,
    ) -> SimulationView {
        let node = self.nodes[id as int];
        if !node.alive {
            self
        } else if term > node.current_term {
            self.with_node(id, node.become_follower(term))
        } else if node.role != Role::Leader || term != node.current_term {
            self
        } else if success {
            self.with_node(
                id,
                NodeView {
                    match_index: node.match_index.update(follower_id as int, match_index),
                    next_index: node.next_index.update(follower_id as int, (match_index + 1) as usize),
                    ..node
                },
            ).advance_commit_index(id)
        } else if node.next_index[follower_id as int] > 1 {
            self.with_node(
                id,
                NodeView {
                    next_index: node.next_index.update(
                        follower_id as int,
                        (node.next_index[follower_id as int] - 1) as usize,
                    ),
                    ..node
                },
            )
        } else {
            self
        }
    }

    /// Hands one message to its addressee.
    pub open spec fn deliver(self, env: EnvelopeView) -> SimulationView {
        match env.message {
            MessageView::RequestVote { term, candidate_id, last_log_index, last_log_term } =>
                self.handle_request_vote(env.to, term, candidate_id, last_log_index, last_log_term),
            MessageView::RequestVoteReply { term, vote_granted, voter_id } =>
                self.handle_request_vote_reply(env.to, term, vote_granted, voter_id),
            MessageView::AppendEntries {
                term,
                leader_id,
                prev_log_index,
                prev_log_term,
                entries,
                leader_commit,
            } => self.handle_append_entries(
                env.to,
                term,
                leader_id,
                prev_log_index,
                prev_log_term,
                entries,
                leader_commit,
            ),
            MessageView::AppendEntriesReply { term, success, follower_id, match_index } =>
                self.handle_append_entries_reply(env.to, term, success, follower_id, match_index),
        }
    }

    /// Delivers `msgs` in order.
    pub open spec fn deliver_all(self, msgs: Seq<EnvelopeView>) -> SimulationView
        decreases msgs.len(),
    {
        if msgs.len() == 0 {
            self
        } else {
            self.deliver_all(msgs.drop_last()).deliver(msgs.last())
        }
    }

    /// Whether node `i` calls an election at this tick.
    pub open spec fn election_due(self, i: int) -> bool {
        let node = self.nodes[i];
        node.alive && node.role != Role::Leader && node.election_deadline <= self.tick
    }

    /// Lets the election timers of the nodes below `k` fire, in index order.
    pub open spec fn elections_below(self, k: nat) -> SimulationView
        decreases k,
    {
        if k == 0 {
            self
        } else {
            let s = self.elections_below((k - 1) as nat);
            if s.election_due(k - 1) {
                s.start_election((k - 1) as usize)
            } else {
                s
            }
        }
    }

    /// Whether leader `i` sends heartbeats at this tick.
    pub open spec fn heartbeat_due(self, i: int) -> bool {
        let node = self.nodes[i];
        node.alive && node.role == Role::Leader && node.heartbeat_deadline <= self.tick
    }

    /// Lets the heartbeat timers of the nodes below `k` fire, in index order.
    pub open spec fn heartbeat_rounds_below(self, k: nat) -> SimulationView
        decreases k,
    {
        if k == 0 {
            self
        } else {
            let s = self.heartbeat_rounds_below((k - 1) as nat);
            let i = k - 1;
            if s.heartbeat_due(i) {
                let t = s.send_heartbeats(i as usize);
                t.with_node(
                    i as usize,
                    NodeView {
                        heartbeat_deadline: (t.tick + t.heartbeat_interval) as u64,
                        ..t.nodes[i]
                    },
                )
            } else {
                s
            }
        }
    }

    /// The messages of `inbox` due at `tick`, in bus order.
    pub open spec fn due_at(inbox: Seq<EnvelopeView>, tick: u64) -> Seq<EnvelopeView> {
        inbox.filter(|e: EnvelopeView| e.deliver_at <= tick)
    }

    /// The messages of `inbox` not yet due at `tick`, in bus order.
    pub open spec fn pending_at(inbox: Seq<EnvelopeView>, tick: u64) -> Seq<EnvelopeView> {
        inbox.filter(|e: EnvelopeView| e.deliver_at > tick)
    }

    /// One tick: deliver the messages now due, then let election timers
    /// fire, then heartbeat timers.
    pub open spec fn step(self) -> SimulationView {
        let tick = (self.tick + 1) as u64;
        let s1 = SimulationView {
            tick,
            inbox: SimulationView::pending_at(self.inbox, tick),
            ..self
        };
        let s2 = s1.deliver_all(SimulationView::due_at(self.inbox, tick));
        let s3 = s2.elections_below(s2.nodes.len());
        s3.heartbeat_rounds_below(s3.nodes.len())
    }

    pub open spec fn run(self, steps: nat) -> SimulationView
        decreases steps,
    {
        if steps == 0 {
            self
        } else {
            self.run((steps - 1) as nat).step()
        }
    }

    pub open spec fn is_live_leader(self, i: int) -> bool {
        &&& 0 <= i < self.nodes.len()
        &&& self.nodes[i].alive
        &&& self.nodes[i].role == Role::Leader
    }

    /// The position of the first live leader, if any.
    pub open spec fn leader_index(self) -> Option<int> {
        if exists|i: int| self.is_live_leader(i) {
            Some(
                choose|i: int|
                    self.is_live_leader(i) && forall|j: int| 0 <= j < i ==> !self.is_live_leader(j),
            )
        } else {
            None
        }
    }

    /// The ids of the live leaders of `term` among the nodes below `k`, in order.
    pub open spec fn leaders_in_term_below(self, term: u64, k: nat) -> Seq<usize>
        decreases k,
    {
        if k == 0 {
            Seq::empty()
        } else {
            let rest = self.leaders_in_term_below(term, (k - 1) as nat);
            let node = self.nodes[k - 1];
            if node.alive && node.role == Role::Leader && node.current_term == term {
                rest.push(node.id)
            } else {
                rest
            }
        }
    }

    pub open spec fn leaders_in_term(self, term: u64) -> Seq<usize> {
        self.leaders_in_term_below(term, self.nodes.len())
    }

    /// A client command appended to the first live leader's log.
    pub open spec fn submit(self, command: Seq<char>) -> SimulationView {
        match self.leader_index() {
            None => self,
            Some(pos) => {
                let id = self.nodes[pos].id;
                let node = self.nodes[id as int];
                let log = node.log.push(LogEntryView { term: node.current_term, command });
                self.with_node(
                    id,
                    NodeView {
                        log,
                        match_index: node.match_index.update(id as int, log.len() as usize),
                        ..node
                    },
                ).log_event(request_text(command, id, log.len() as usize))
            },
        }
    }

    /// Whether a client command can go to the first live leader now: there
    /// is one, and its log has room for another entry.
    pub open spec fn can_submit(self) -> bool {
        &&& self.leader_index() is Some
        &&& self.nodes[self.leader_index().unwrap()].log.len() < log_limit()
    }

    /// A run of `steps` ticks that, after each tick, hands the next of
    /// `commands` to the leader whenever one can take it; also how many
    /// commands went in.
    pub open spec fn scenario(self, commands: Seq<Seq<char>>, steps: nat) -> (SimulationView, nat)
        decreases steps,
    {
        if steps == 0 {
            (self, 0)
        } else {
            let (before, k) = self.scenario(commands, (steps - 1) as nat);
            let t = before.step();
            if k < commands.len() && t.can_submit() {
                (t.submit(commands[k as int]), k + 1)
            } else {
                (t, k)
            }
        }
    }

    pub open spec fn kill(self, id: usize) -> SimulationView {
        self.with_node(id, NodeView { alive: false, ..self.nodes[id as int] }).log_event(
            killed_text(id),
        )
    }

    pub open spec fn revive(self, id: usize) -> SimulationView {
        self.with_node(
            id,
            NodeView { alive: true, role: Role::Follower, ..self.nodes[id as int] },
        ).reset_election_timer(id).log_event(revived_text(id))
    }
}

/// How a node may change from one state of the simulation to a later one:
/// its term never goes back; within one term a node that is not a
/// candidate never becomes one, and a node becomes leader only from
/// candidate, after which its log only grows at its end; a vote cast in a
/// term stays cast for the same candidate while the node is in that term.
pub open spec fn node_evolves(a: NodeView, b: NodeView) -> bool {
    &&& a.current_term <= b.current_term
    &&& a.current_term == b.current_term ==> {
        &&& a.voted_for is Some ==> b.voted_for == a.voted_for
        &&& a.role != Role::Candidate ==> b.role != Role::Candidate
        &&& b.role == Role::Leader ==> (a.role == Role::Candidate || (a.role == Role::Leader
            && a.log.is_prefix_of(b.log)))
    }
}

impl SimulationView {
    /// The fixed timing parameters of a simulation.
    pub open spec fn settings_ok(self) -> bool {
        &&& self.election_timeout_min == 150
        &&& self.election_timeout_max == 300
        &&& self.heartbeat_interval == 50
        &&& self.network_delay == 10
    }

    /// Node `i` is well formed: it knows its own index, its leader
    /// bookkeeping is sized to the cluster, its log fits the machine, and
    /// as a leader each `next_index` points into or just past its log.
    pub open spec fn node_ok(self, i: int) -> bool {
        let node = self.nodes[i];
        let n = self.nodes.len();
        &&& node.id == i
        &&& node.next_index.len() == n
        &&& node.match_index.len() == n
        &&& node.votes_received.finite()
        &&& node.log.len() <= log_limit()
        &&& node.commit_index <= log_limit()
        &&& node.role == Role::Leader ==> forall|p: int|
            0 <= p < n ==> 1 <= #[trigger] node.next_index[p] <= node.log.len() + 1
    }

    /// What an AppendEntries of `leader` in `term` covering the log up to
    /// `len` (or a successful reply to one) tells about the leader now: it
    /// has moved past `term`, or is still in `term`, not a candidate, and
    /// if still leading, its log reaches `len`.
    pub open spec fn leader_covers(self, leader: usize, term: u64, len: int) -> bool {
        let node = self.nodes[leader as int];
        ||| node.current_term > term
        ||| (node.current_term == term && node.role != Role::Candidate && (node.role == Role::Leader
            ==> len <= node.log.len()))
    }

    pub open spec fn message_ok(self, to: usize, message: MessageView) -> bool {
        let n = self.nodes.len();
        match message {
            MessageView::RequestVote { candidate_id, .. } => candidate_id < n,
            MessageView::RequestVoteReply { voter_id, .. } => voter_id < n,
            MessageView::AppendEntries { term, leader_id, prev_log_index, entries, leader_commit, .. } => {
                &&& leader_id < n
                &&& prev_log_index + entries.len() <= log_limit()
                &&& leader_commit <= log_limit()
                &&& self.leader_covers(leader_id, term, prev_log_index + entries.len())
            },
            MessageView::AppendEntriesReply { term, success, follower_id, match_index } => {
                &&& follower_id < n
                &&& match_index <= log_limit()
                &&& success ==> self.leader_covers(to, term, match_index as int)
            },
        }
    }

    pub open spec fn envelope_ok(self, env: EnvelopeView) -> bool {
        &&& env.from < self.nodes.len()
        &&& env.to < self.nodes.len()
        &&& self.message_ok(env.to, env.message)
    }

    pub open spec fn inbox_ok(self) -> bool {
        forall|k: int| 0 <= k < self.inbox.len() ==> self.envelope_ok(#[trigger] self.inbox[k])
    }

    /// The well-formedness that every simulation keeps: fixed settings,
    /// well-formed nodes, and messages that name real nodes and fit the
    /// senders' logs.
    #[verifier::opaque]
    pub open spec fn wf(self) -> bool {
        &&& self.settings_ok()
        &&& self.nodes.len() <= usize::MAX
        &&& forall|i: int| 0 <= i < self.nodes.len() ==> #[trigger] self.node_ok(i)
        &&& self.inbox_ok()
    }

    /// The clock is far enough from its limit for the timers set at this tick.
    pub open spec fn tick_ok(self) -> bool {
        self.tick + 300 <= u64::MAX
    }

    /// Every term held by a node or carried by a message is at most `bound`.
    pub open spec fn terms_at_most(self, bound: int) -> bool {
        &&& forall|i: int| 0 <= i < self.nodes.len() ==> #[trigger] self.nodes[i].current_term <= bound
        &&& forall|k: int| 0 <= k < self.inbox.len() ==> #[trigger] self.inbox[k].message.term() <= bound
    }

    /// `later` is a state this one can turn into: same cluster and settings,
    /// and every node evolves.
    pub open spec fn evolves_to(self, later: SimulationView) -> bool {
        &&& later.nodes.len() == self.nodes.len()
        &&& later.election_timeout_min == self.election_timeout_min
        &&& later.election_timeout_max == self.election_timeout_max
        &&& later.heartbeat_interval == self.heartbeat_interval
        &&& later.network_delay == self.network_delay
        &&& forall|i: int| 0 <= i < self.nodes.len() ==> node_evolves(#[trigger] self.nodes[i], later.nodes[i])
    }
}

impl SimulationView {
    /// The first live leader is the one that `leader_index` names.
    pub proof fn lemma_leader_index_found(self, i: int)
        requires
            self.is_live_leader(i),
            forall|j: int| 0 <= j < i ==> !self.is_live_leader(j),
        ensures
            self.leader_index() == Some(i),
    {
        let k = choose|k: int|
            self.is_live_leader(k) && forall|j: int| 0 <= j < k ==> !self.is_live_leader(j);
        assert(self.is_live_leader(k) && forall|j: int| 0 <= j < k ==> !self.is_live_leader(j));
        if k < i {
            assert(!self.is_live_leader(k));
        }
        if i < k {
            assert(!self.is_live_leader(i));
        }
    }

    /// Without a live leader, `leader_index` is `None`.
    pub proof fn lemma_leader_index_none(self)
        requires
            forall|j: int| 0 <= j < self.nodes.len() ==> !self.is_live_leader(j),
        ensures
            self.leader_index() is None,
    {
    }
}

impl SimulationView {
    proof fn lemma_first_leader_exists(self, i: int)
        requires
            self.is_live_leader(i),
        ensures
            exists|k: int| self.is_live_leader(k) && forall|j: int| 0 <= j < k ==> !self.is_live_leader(j),
        decreases i,
    {
        if exists|j: int| 0 <= j < i && self.is_live_leader(j) {
            let j = choose|j: int| 0 <= j < i && self.is_live_leader(j);
            self.lemma_first_leader_exists(j);
        } else {
            assert(forall|j: int| 0 <= j < i ==> !self.is_live_leader(j));
        }
    }

    /// `leader_index` names the first live leader, whenever there is one.
    pub proof fn lemma_leader_index(self)
        ensures
            self.leader_index() matches Some(k) ==> self.is_live_leader(k) && forall|j: int|
                0 <= j < k ==> !self.is_live_leader(j),
            self.leader_index() is None <==> forall|j: int| !self.is_live_leader(j),
    {
        if exists|i: int| self.is_live_leader(i) {
            let i = choose|i: int| self.is_live_leader(i);
            self.lemma_first_leader_exists(i);
        }
    }
}

} // verus!
