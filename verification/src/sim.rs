//! The deterministic simulation: a message bus, a set of nodes, and a
//! tick counter. Nothing here touches the wall clock or the OS. Given
//! the same seed and the same sequence of calls, a run always produces
//! the same trace.

use crate::invariants::{
    lemma_deliver, lemma_elections, lemma_envelope_kept, lemma_evolves_refl, lemma_evolves_trans,
    lemma_filtered_inbox, lemma_heartbeat_rounds, lemma_initial, lemma_kill, lemma_revive, lemma_step,
    lemma_submit, lemma_wf_nodes,
};
use crate::message::{log_view, Envelope, EnvelopeView, LogEntry, LogEntryView, Message, MessageView};
use crate::model::{
    highest_committable, log_limit, merge_entries, merge_entry, peers_holding, SimulationView,
};
use crate::node::{fresh_node, Node, NodeView, Role};
use crate::rng::Rng;
use crate::safety::{
    lemma_safe_initial, lemma_safe_kill, lemma_safe_revive, lemma_safe_step, lemma_safe_submit,
    lemma_safe_with_kill, lemma_safe_with_revive, lemma_safe_with_step, lemma_safe_with_submit,
};
use crate::text::{
    make_commit_text, make_election_text, make_killed_text, make_leader_text, make_request_text,
    make_revived_text, make_tick_line, make_vote_text,
};
use vstd::prelude::*;

verus! {

pub struct Simulation {
    pub nodes: Vec<Node>,
    pub tick: u64,
    pub events: Vec<String>,
    inbox: Vec<Envelope>,
    rng: Rng,
    election_timeout_min: u64,
    election_timeout_max: u64,
    heartbeat_interval: u64,
    network_delay: u64,
}

pub open spec fn nodes_view(nodes: Seq<Node>) -> Seq<NodeView> {
    nodes.map_values(|n: Node| n@)
}

pub open spec fn events_view(events: Seq<String>) -> Seq<Seq<char>> {
    events.map_values(|s: String| s@)
}

pub open spec fn inbox_view(inbox: Seq<Envelope>) -> Seq<EnvelopeView> {
    inbox.map_values(|e: Envelope| e@)
}

impl View for Simulation {
    type V = SimulationView;

    closed spec fn view(&self) -> SimulationView {
        SimulationView {
            nodes: nodes_view(self.nodes@),
            tick: self.tick,
            events: events_view(self.events@),
            inbox: inbox_view(self.inbox@),
            rng: self.rng@,
            election_timeout_min: self.election_timeout_min,
            election_timeout_max: self.election_timeout_max,
            heartbeat_interval: self.heartbeat_interval,
            network_delay: self.network_delay,
        }
    }
}

/// Writing through `nodes[i]` changes the view at `i` alone.
proof fn lemma_node_written(prev: Seq<Node>, cur: Seq<Node>, i: int)
    requires
        0 <= i < prev.len(),
        cur.len() == prev.len(),
        forall|j: int| 0 <= j < prev.len() && j != i ==> cur[j] == prev[j],
    ensures
        nodes_view(cur) == nodes_view(prev).update(i, cur[i]@),
{
    assert(nodes_view(cur) =~= nodes_view(prev).update(i, cur[i]@));
}

/// `n` copies of `value`.
fn filled(value: usize, n: usize) -> (v: Vec<usize>)
    ensures
        v@ == Seq::new(n as nat, |i: int| value),
{
    let mut v: Vec<usize> = Vec::new();
    let mut i: usize = 0;
    while i < n
        invariant
            i <= n,
            v@ == Seq::new(i as nat, |k: int| value),
        decreases n - i,
    {
        v.push(value);
        i = i + 1;
        assert(v@ =~= Seq::new(i as nat, |k: int| value));
    }
    v
}

/// Copies of the entries of `log` from position `from` on.
fn copy_suffix(log: &Vec<LogEntry>, from: usize) -> (r: Vec<LogEntry>)
    requires
        from <= log@.len(),
    ensures
        log_view(r@) == log_view(log@).subrange(from as int, log@.len() as int),
{
    let mut r: Vec<LogEntry> = Vec::new();
    let mut i: usize = from;
    while i < log.len()
        invariant
            from <= i <= log@.len(),
            log_view(r@) == log_view(log@).subrange(from as int, i as int),
        decreases log.len() - i,
    {
        let e = log[i].duplicate();
        let ghost prev = r@;
        r.push(e);
        assert(log_view(r@) =~= log_view(prev).push(e@));
        i = i + 1;
        assert(log_view(r@) =~= log_view(log@).subrange(from as int, i as int));
    }
    r
}


/// Applies the entries of an AppendEntries to `log`, the first at `start`.
fn merge_into(log: &mut Vec<LogEntry>, start: usize, entries: &Vec<LogEntry>)
    requires
        start + entries@.len() <= usize::MAX,
    ensures
        log_view(final(log)@) == merge_entries(log_view(old(log)@), start as int, log_view(entries@)),
{
    let ghost goal = merge_entries(log_view(old(log)@), start as int, log_view(entries@));
    let mut i: usize = 0;
    assert(log_view(entries@).skip(0) =~= log_view(entries@));
    while i < entries.len()
        invariant
            i <= entries@.len(),
            start + entries@.len() <= usize::MAX,
            merge_entries(log_view(log@), start + i, log_view(entries@).skip(i as int)) == goal,
        decreases entries.len() - i,
    {
        let ghost before = log_view(log@);
        let ghost rest = log_view(entries@).skip(i as int);
        let idx = start + i;
        if log.len() > idx {
            if log[idx].term != entries[i].term {
                log.truncate(idx);
                log.push(entries[i].duplicate());
            }
        } else {
            log.push(entries[i].duplicate());
        }
        proof {
            assert(log_view(log@) =~= merge_entry(before, idx as int, log_view(entries@)[i as int]));
            assert(rest[0] == log_view(entries@)[i as int]);
            assert(rest.drop_first() =~= log_view(entries@).skip(i + 1));
        }
        i = i + 1;
    }
    assert(log_view(entries@).skip(i as int) =~= Seq::<LogEntryView>::empty());
}

/// How many peers other than `id` hold the log up to `idx`.
fn count_holding(match_index: &Vec<usize>, id: usize, idx: usize) -> (count: usize)
    requires
        id < match_index@.len(),
    ensures
        count == peers_holding(match_index@, id as int, idx as int, match_index@.len()),
        count < match_index@.len(),
{
    let mut count: usize = 0;
    let mut peer: usize = 0;
    while peer < match_index.len()
        invariant
            peer <= match_index@.len(),
            id < match_index@.len(),
            count == peers_holding(match_index@, id as int, idx as int, peer as nat),
            count + (if id < peer {
                1int
            } else {
                0int
            }) <= peer,
        decreases match_index.len() - peer,
    {
        if peer != id && match_index[peer] >= idx {
            count = count + 1;
        }
        peer = peer + 1;
    }
    count
}

impl Simulation {
    /// The nodes, as the view shows them.
    pub fn nodes(&self) -> (r: &Vec<Node>)
        ensures
            nodes_view(r@) == self@.nodes,
            r@.len() == self@.nodes.len(),
            forall|i: int| 0 <= i < r@.len() ==> #[trigger] r@[i]@ == self@.nodes[i],
    {
        &self.nodes
    }

    /// The current tick, as the view shows it.
    pub fn tick(&self) -> (r: u64)
        ensures
            r == self@.tick,
    {
        self.tick
    }

    /// The event trace, as the view shows it.
    pub fn events(&self) -> (r: &Vec<String>)
        ensures
            events_view(r@) == self@.events,
            r@.len() == self@.events.len(),
            forall|i: int| 0 <= i < r@.len() ==> #[trigger] r@[i]@ == self@.events[i],
    {
        &self.events
    }

    proof fn lemma_nodes_len(&self)
        ensures
            self@.nodes.len() == self.nodes@.len(),
            forall|i: int| 0 <= i < self.nodes@.len() ==> #[trigger] self@.nodes[i] == self.nodes@[i]@,
    {
    }

    pub fn new(node_count: usize, seed: u64) -> (sim: Self)
        ensures
            sim@ == SimulationView::initial(node_count, seed),
            sim@.wf(),
            sim@.tick == 0,
            sim@.terms_at_most(0),
            sim@.safe(),
    {
        proof {
            lemma_initial(node_count, seed);
            lemma_safe_initial(node_count, seed);
        }
        let election_timeout_min: u64 = 150;
        let election_timeout_max: u64 = 300;
        let mut rng = Rng::new(seed);
        let mut nodes: Vec<Node> = Vec::new();
        let ghost n = node_count as nat;
        let mut id: usize = 0;
        while id < node_count
            invariant
                id <= node_count,
                n == node_count,
                nodes@.len() == id,
                nodes_view(nodes@) == Seq::new(id as nat, |i: int| fresh_node(i as usize, n)),
            decreases node_count - id,
        {
            let ghost prev = nodes@;
            let node = Node::new(id, node_count);
            nodes.push(node);
            proof {
                assert forall|i: int| 0 <= i < id + 1 implies #[trigger] nodes_view(nodes@)[i] == fresh_node(
                    i as usize,
                    n,
                ) by {
                    if i < id {
                        assert(nodes@[i] == prev[i]);
                        assert(nodes_view(prev)[i] == fresh_node(i as usize, n));
                    }
                }
            }
            id = id + 1;
            assert(nodes_view(nodes@) =~= Seq::new(id as nat, |i: int| fresh_node(i as usize, n)));
        }
        let ghost base = SimulationView {
            nodes: Seq::new(n, |i: int| fresh_node(i as usize, n)),
            tick: 0,
            events: Seq::empty(),
            inbox: Seq::empty(),
            rng: rng@,
            election_timeout_min: 150,
            election_timeout_max: 300,
            heartbeat_interval: 50,
            network_delay: 10,
        };
        let mut k: usize = 0;
        while k < node_count
            invariant
                k <= node_count,
                n == node_count,
                nodes@.len() == node_count,
                election_timeout_min == 150,
                election_timeout_max == 300,
                base.election_timeout_min == 150,
                base.election_timeout_max == 300,
                base.deadlines_below(k as nat) == (SimulationView {
                    nodes: nodes_view(nodes@),
                    rng: rng@,
                    ..base
                }),
            decreases node_count - k,
        {
            let ghost prev = nodes@;
            let d = rng.range(election_timeout_min, election_timeout_max);
            nodes[k].election_deadline = d;
            proof {
                lemma_node_written(prev, nodes@, k as int);
            }
            k = k + 1;
        }
        let sim = Simulation {
            nodes,
            tick: 0,
            events: Vec::new(),
            inbox: Vec::new(),
            rng,
            election_timeout_min,
            election_timeout_max,
            heartbeat_interval: 50,
            network_delay: 10,
        };
        assert(sim@.events =~= Seq::<Seq<char>>::empty());
        assert(sim@.inbox =~= Seq::<EnvelopeView>::empty());
        sim
    }
}

impl Simulation {
    pub fn quorum_size(&self) -> (q: usize)
        ensures
            q == self@.quorum(),
    {
        self.nodes.len() / 2 + 1
    }

    /// The position of the first live leader, if any.
    fn first_live_leader(&self) -> (r: Option<usize>)
        ensures
            r is Some <==> self@.leader_index() is Some,
            r matches Some(i) ==> self@.leader_index() == Some(i as int) && self@.is_live_leader(
                i as int,
            ),
    {
        let mut i: usize = 0;
        while i < self.nodes.len()
            invariant
                i <= self.nodes.len(),
                self@.nodes.len() == self.nodes.len(),
                forall|j: int| 0 <= j < i ==> !self@.is_live_leader(j),
            decreases self.nodes.len() - i,
        {
            if self.nodes[i].alive && self.nodes[i].role == Role::Leader {
                proof {
                    self@.lemma_leader_index_found(i as int);
                }
                return Some(i);
            }
            i = i + 1;
        }
        proof {
            self@.lemma_leader_index_none();
        }
        None
    }

    /// The first live leader, if any.
    pub fn leader(&self) -> (r: Option<&Node>)
        ensures
            r is Some <==> self@.leader_index() is Some,
            r matches Some(node) ==> node@ == self@.nodes[self@.leader_index().unwrap()],
    {
        match self.first_live_leader() {
            Some(i) => Some(&self.nodes[i]),
            None => None,
        }
    }

    /// The ids of the live leaders of `term`, in node order.
    pub fn leaders_in_term(&self, term: u64) -> (ids: Vec<usize>)
        ensures
            ids@ == self@.leaders_in_term(term),
    {
        let mut ids: Vec<usize> = Vec::new();
        let mut i: usize = 0;
        while i < self.nodes.len()
            invariant
                i <= self.nodes.len(),
                self@.nodes.len() == self.nodes.len(),
                ids@ == self@.leaders_in_term_below(term, i as nat),
            decreases self.nodes.len() - i,
        {
            let node = &self.nodes[i];
            if node.alive && node.role == Role::Leader && node.current_term == term {
                ids.push(node.id);
            }
            i = i + 1;
        }
        ids
    }

    fn log_event(&mut self, msg: String)
        ensures
            final(self)@ == old(self)@.log_event(msg@),
    {
        let line = make_tick_line(self.tick, &msg);
        self.events.push(line);
        assert(events_view(self.events@) =~= events_view(old(self).events@).push(line@));
    }

    fn reset_election_timer(&mut self, id: usize)
        requires
            id < old(self)@.nodes.len(),
            old(self)@.tick_ok(),
            old(self)@.settings_ok(),
        ensures
            final(self)@ == old(self)@.reset_election_timer(id),
    {
        let timeout = self.rng.range(self.election_timeout_min, self.election_timeout_max);
        let ghost prev = self.nodes@;
        self.nodes[id].election_deadline = self.tick + timeout;
        proof {
            lemma_node_written(prev, self.nodes@, id as int);
        }
    }

    fn send(&mut self, from: usize, to: usize, message: Message)
        requires
            to < old(self)@.nodes.len(),
            old(self)@.tick_ok(),
            old(self)@.settings_ok(),
        ensures
            final(self)@ == old(self)@.send(from, to, message@),
    {
        if !self.nodes[to].alive {
            return;
        }
        let env = Envelope { from, to, deliver_at: self.tick + self.network_delay, message };
        self.inbox.push(env);
        assert(inbox_view(self.inbox@) =~= inbox_view(old(self).inbox@).push(env@));
    }

    pub fn kill_node(&mut self, id: usize)
        requires
            id < old(self)@.nodes.len(),
        ensures
            final(self)@ == old(self)@.kill(id),
            old(self)@.wf() ==> final(self)@.wf() && old(self)@.evolves_to(final(self)@),
            old(self)@.safe() ==> final(self)@.safe(),
            forall|x: Seq<EnvelopeView>| #[trigger] old(self)@.safe_with(x) ==> final(self)@.safe_with(x),
            forall|b: int| #[trigger] old(self)@.terms_at_most(b) ==> final(self)@.terms_at_most(b),
    {
        proof {
            if old(self)@.wf() {
                lemma_kill(old(self)@, id, 0);
            }
            if old(self)@.safe() {
                lemma_safe_kill(old(self)@, id);
            }
            assert forall|x: Seq<EnvelopeView>| #[trigger] old(self)@.safe_with(x) implies old(self)@.kill(id).safe_with(x) by {
                lemma_safe_with_kill(old(self)@, id, x);
            }
            assert forall|b: int| #[trigger] old(self)@.terms_at_most(b) implies old(self)@.kill(id).terms_at_most(b) by {
                assert forall|i: int| 0 <= i < old(self)@.kill(id).nodes.len() implies #[trigger] old(self)@.kill(id).nodes[i].current_term <= b by {
                    assert(old(self)@.nodes[i].current_term <= b);
                }
            }
        }
        let ghost prev = self.nodes@;
        self.nodes[id].alive = false;
        proof {
            lemma_node_written(prev, self.nodes@, id as int);
        }
        let text = make_killed_text(id);
        self.log_event(text);
    }

    pub fn revive_node(&mut self, id: usize)
        requires
            id < old(self)@.nodes.len(),
            old(self)@.tick_ok(),
            old(self)@.settings_ok(),
        ensures
            final(self)@ == old(self)@.revive(id),
            old(self)@.wf() ==> final(self)@.wf() && old(self)@.evolves_to(final(self)@),
            old(self)@.safe() ==> final(self)@.safe(),
            forall|x: Seq<EnvelopeView>| #[trigger] old(self)@.safe_with(x) ==> final(self)@.safe_with(x),
            forall|b: int| #[trigger] old(self)@.terms_at_most(b) ==> final(self)@.terms_at_most(b),
    {
        proof {
            if old(self)@.wf() {
                lemma_revive(old(self)@, id, 0);
            }
            if old(self)@.safe() {
                lemma_safe_revive(old(self)@, id);
            }
            assert forall|x: Seq<EnvelopeView>| #[trigger] old(self)@.safe_with(x) implies old(self)@.revive(id).safe_with(x) by {
                lemma_safe_with_revive(old(self)@, id, x);
            }
            assert forall|b: int| #[trigger] old(self)@.terms_at_most(b) implies old(self)@.revive(id).terms_at_most(b) by {
                assert forall|i: int| 0 <= i < old(self)@.revive(id).nodes.len() implies #[trigger] old(self)@.revive(id).nodes[i].current_term <= b by {
                    assert(old(self)@.nodes[i].current_term <= b);
                }
            }
        }
        let ghost prev = self.nodes@;
        self.nodes[id].alive = true;
        self.nodes[id].role = Role::Follower;
        proof {
            lemma_node_written(prev, self.nodes@, id as int);
            assert(self@ == old(self)@.with_node(
                id,
                NodeView { alive: true, role: Role::Follower, ..old(self)@.nodes[id as int] },
            ));
        }
        self.reset_election_timer(id);
        let text = make_revived_text(id);
        self.log_event(text);
    }

    /// Appends `command` in the node's current term and records the new
    /// log length as the node's own match index.
    fn append_command(&mut self, id: usize, command: &str) -> (log_len: usize)
        requires
            id < old(self)@.nodes.len(),
            old(self)@.nodes[id as int].match_index.len() > id,
        ensures
            ({
                let node0 = old(self)@.nodes[id as int];
                let log = node0.log.push(LogEntryView { term: node0.current_term, command: command@ });
                &&& log_len == log.len()
                &&& final(self)@ == old(self)@.with_node(
                    id,
                    NodeView {
                        log,
                        match_index: node0.match_index.update(id as int, log.len() as usize),
                        ..node0
                    },
                )
            }),
    {
        proof {
            self.lemma_nodes_len();
        }
        let term = self.nodes[id].current_term;
        let entry = LogEntry { term, command: String::from_str(command) };
        let ghost prev = self.nodes@;
        self.nodes[id].log.push(entry);
        let log_len = self.nodes[id].log.len();
        self.nodes[id].match_index.set(id, log_len);
        proof {
            lemma_node_written(prev, self.nodes@, id as int);
            assert(log_view(self.nodes@[id as int].log@) =~= log_view(prev[id as int].log@).push(
                entry@,
            ));
        }
        log_len
    }

    /// Appends a command to the current leader's log, if there is one.
    pub fn submit_client_request(&mut self, command: &str) -> (r: Result<(), &'static str>)
        requires
            old(self)@.wf(),
            old(self)@.leader_index() matches Some(i) ==> old(self)@.nodes[i].log.len() < log_limit(),
        ensures
            final(self)@ == old(self)@.submit(command@),
            r is Ok <==> old(self)@.leader_index() is Some,
            r matches Err(e) ==> e@ == "no leader available"@,
            final(self)@.wf(),
            old(self)@.evolves_to(final(self)@),
            old(self)@.safe() ==> final(self)@.safe(),
            forall|x: Seq<EnvelopeView>| #[trigger] old(self)@.safe_with(x) ==> final(self)@.safe_with(x),
            forall|b: int| #[trigger] old(self)@.terms_at_most(b) ==> final(self)@.terms_at_most(b),
    {
        proof {
            lemma_submit(old(self)@, command@, 0);
            if old(self)@.safe() {
                lemma_safe_submit(old(self)@, command@);
            }
            assert forall|x: Seq<EnvelopeView>| #[trigger] old(self)@.safe_with(x) implies old(self)@.submit(command@).safe_with(x) by {
                lemma_safe_with_submit(old(self)@, command@, x);
            }
            assert forall|b: int| #[trigger] old(self)@.terms_at_most(b) implies old(self)@.submit(command@).terms_at_most(b) by {
                lemma_submit(old(self)@, command@, b);
            }
        }
        let found = self.first_live_leader();
        if found.is_none() {
            return Err("no leader available");
        }
        let i = found.unwrap();
        proof {
            reveal(SimulationView::wf);
            assert(self@.node_ok(i as int));
        }
        let id = self.nodes[i].id;
        let log_len = self.append_command(id, command);
        let text = make_request_text(command, id, log_len);
        self.log_event(text);
        Ok(())
    }
}

impl Simulation {
    fn handle_request_vote(
        &mut self,
        id: usize,
        term: u64,
        candidate_id: usize,
        last_log_index: usize,
        last_log_term: u64,
    )
        requires
            id < old(self)@.nodes.len(),
            candidate_id < old(self)@.nodes.len(),
            old(self)@.tick_ok(),
            old(self)@.settings_ok(),
        ensures
            final(self)@ == old(self)@.handle_request_vote(
                id,
                term,
                candidate_id,
                last_log_index,
                last_log_term,
            ),
    {
        if !self.nodes[id].alive {
            return;
        }
        if term > self.nodes[id].current_term {
            let ghost prev = self.nodes@;
            self.nodes[id].become_follower(term);
            proof {
                lemma_node_written(prev, self.nodes@, id as int);
            }
        }
        let ghost s1 = self@;
        let grant = {
            let node = &self.nodes[id];
            if term < node.current_term {
                false
            } else {
                let log_ok = node.log_is_at_least_as_up_to_date(last_log_term, last_log_index);
                let can_vote = match node.voted_for {
                    None => true,
                    Some(v) => v == candidate_id,
                };
                log_ok && can_vote
            }
        };
        if grant {
            let ghost prev = self.nodes@;
            self.nodes[id].voted_for = Some(candidate_id);
            proof {
                lemma_node_written(prev, self.nodes@, id as int);
                assert(self@ == s1.with_node(
                    id,
                    NodeView { voted_for: Some(candidate_id), ..s1.nodes[id as int] },
                ));
            }
            self.reset_election_timer(id);
        }
        proof {
            self.lemma_nodes_len();
        }
        let reply_term = self.nodes[id].current_term;
        let text = make_vote_text(id, grant, candidate_id, reply_term);
        self.log_event(text);
        self.send(
            id,
            candidate_id,
            Message::RequestVoteReply { term: reply_term, vote_granted: grant, voter_id: id },
        );
    }
}

impl Simulation {
    fn handle_request_vote_reply(&mut self, id: usize, term: u64, vote_granted: bool, voter_id: usize)
        requires
            id < old(self)@.nodes.len(),
            old(self)@.node_ok(id as int),
            old(self)@.tick_ok(),
            old(self)@.settings_ok(),
        ensures
            final(self)@ == old(self)@.handle_request_vote_reply(id, term, vote_granted, voter_id),
    {
        if !self.nodes[id].alive {
            return;
        }
        if term > self.nodes[id].current_term {
            let ghost prev = self.nodes@;
            self.nodes[id].become_follower(term);
            proof {
                lemma_node_written(prev, self.nodes@, id as int);
            }
            return;
        }
        if self.nodes[id].role != Role::Candidate || term != self.nodes[id].current_term {
            return;
        }
        if vote_granted {
            let ghost prev = self.nodes@;
            self.nodes[id].votes_received.insert(voter_id);
            proof {
                lemma_node_written(prev, self.nodes@, id as int);
            }
            if self.nodes[id].votes_received.len() >= self.quorum_size() {
                self.become_leader(id);
            }
        }
    }

    /// The AppendEntries that leader `id` sends to `peer` now.
    fn heartbeat_message(&self, id: usize, peer: usize) -> (m: Message)
        requires
            id < self@.nodes.len(),
            peer < self@.nodes.len(),
            self@.node_ok(id as int),
            self@.nodes[id as int].role == Role::Leader,
        ensures
            m@ == self@.heartbeat_message(id, peer),
    {
        proof {
            self.lemma_nodes_len();
        }
        let node = &self.nodes[id];
        let next = node.next_index[peer];
        let prev_log_index = next.saturating_sub(1);
        let prev_log_term = if prev_log_index > 0 {
            node.log[prev_log_index - 1].term
        } else {
            0
        };
        let entries: Vec<LogEntry> = if next <= node.log.len() {
            copy_suffix(&node.log, next - 1)
        } else {
            Vec::new()
        };
        proof {
            if next > node.log.len() {
                assert(log_view(entries@) =~= Seq::<LogEntryView>::empty());
            }
        }
        Message::AppendEntries {
            term: node.current_term,
            leader_id: id,
            prev_log_index,
            prev_log_term,
            entries,
            leader_commit: node.commit_index,
        }
    }

    fn send_heartbeats(&mut self, id: usize)
        requires
            id < old(self)@.nodes.len(),
            old(self)@.node_ok(id as int),
            old(self)@.tick_ok(),
            old(self)@.settings_ok(),
        ensures
            final(self)@ == old(self)@.send_heartbeats(id),
            final(self)@.nodes == old(self)@.nodes,
            final(self)@.tick == old(self)@.tick,
            final(self)@.settings_ok(),
    {
        proof {
            self.lemma_nodes_len();
        }
        if !self.nodes[id].alive || self.nodes[id].role != Role::Leader {
            return;
        }
        let n = self.nodes.len();
        let ghost base = self@;
        let mut peer: usize = 0;
        while peer < n
            invariant
                peer <= n,
                n == base.nodes.len(),
                id < n,
                base.node_ok(id as int),
                base.nodes[id as int].role == Role::Leader,
                base.tick_ok(),
                base.settings_ok(),
                self@ == base.heartbeats_below(id, peer as nat),
                self@.nodes == base.nodes,
                self@.tick == base.tick,
                self@.settings_ok(),
            decreases n - peer,
        {
            if peer != id {
                let m = self.heartbeat_message(id, peer);
                self.send(id, peer, m);
            }
            peer = peer + 1;
        }
    }

    fn become_leader(&mut self, id: usize)
        requires
            id < old(self)@.nodes.len(),
            old(self)@.node_ok(id as int),
            old(self)@.tick_ok(),
            old(self)@.settings_ok(),
        ensures
            final(self)@ == old(self)@.become_leader(id),
    {
        proof {
            self.lemma_nodes_len();
        }
        let n = self.nodes.len();
        let log_len = self.nodes[id].log.len();
        let ghost prev = self.nodes@;
        self.nodes[id].role = Role::Leader;
        self.nodes[id].next_index = filled(log_len + 1, n);
        self.nodes[id].match_index = filled(0, n);
        self.nodes[id].match_index.set(id, log_len);
        proof {
            lemma_node_written(prev, self.nodes@, id as int);
            self.lemma_nodes_len();
        }
        let term = self.nodes[id].current_term;
        let text = make_leader_text(id, term);
        self.log_event(text);
        self.send_heartbeats(id);
        proof {
            self.lemma_nodes_len();
        }
        let deadline = self.tick + self.heartbeat_interval;
        let ghost prev = self.nodes@;
        self.nodes[id].heartbeat_deadline = deadline;
        proof {
            lemma_node_written(prev, self.nodes@, id as int);
        }
    }
}

impl Simulation {
    fn start_election(&mut self, id: usize)
        requires
            id < old(self)@.nodes.len(),
            old(self)@.node_ok(id as int),
            old(self)@.nodes[id as int].current_term < u64::MAX,
            old(self)@.tick_ok(),
            old(self)@.settings_ok(),
        ensures
            final(self)@ == old(self)@.start_election(id),
    {
        proof {
            self.lemma_nodes_len();
        }
        if !self.nodes[id].alive {
            return;
        }
        let ghost prev = self.nodes@;
        self.nodes[id].role = Role::Candidate;
        self.nodes[id].current_term = self.nodes[id].current_term + 1;
        self.nodes[id].voted_for = Some(id);
        self.nodes[id].votes_received.clear();
        self.nodes[id].votes_received.insert(id);
        proof {
            lemma_node_written(prev, self.nodes@, id as int);
            assert(self.nodes@[id as int].votes_received@ =~= Set::<usize>::empty().insert(id));
        }
        let term = self.nodes[id].current_term;
        let text = make_election_text(id, term);
        self.log_event(text);
        self.reset_election_timer(id);
        proof {
            self.lemma_nodes_len();
        }
        let last_log_index = self.nodes[id].last_log_index();
        let last_log_term = self.nodes[id].last_log_term();
        let n = self.nodes.len();
        let ghost base = self@;
        let ghost request = MessageView::RequestVote {
            term,
            candidate_id: id,
            last_log_index,
            last_log_term,
        };
        let mut peer: usize = 0;
        while peer < n
            invariant
                peer <= n,
                n == base.nodes.len(),
                self@ == base.send_to_peers_below(id, request, peer as nat),
                self@.nodes == base.nodes,
                self@.tick == base.tick,
                self@.tick_ok(),
                self@.settings_ok(),
                request == (MessageView::RequestVote {
                    term,
                    candidate_id: id,
                    last_log_index,
                    last_log_term,
                }),
            decreases n - peer,
        {
            if peer != id {
                self.send(
                    id,
                    peer,
                    Message::RequestVote { term, candidate_id: id, last_log_index, last_log_term },
                );
            }
            peer = peer + 1;
        }
        proof {
            self.lemma_nodes_len();
        }
        if self.nodes[id].votes_received.len() >= self.quorum_size() {
            self.become_leader(id);
        }
    }

    /// The highest index from the log's end down to just above the commit
    /// index that the leader may commit, or the commit index when none.
    fn highest_committable_index(&self, id: usize) -> (r: usize)
        requires
            id < self@.nodes.len(),
            self@.nodes[id as int].match_index.len() == self@.nodes.len(),
        ensures
            r as int == highest_committable(
                self@.nodes[id as int],
                id as int,
                self@.nodes.len(),
                self@.quorum(),
                self@.nodes[id as int].log.len() as int,
            ),
    {
        proof {
            self.lemma_nodes_len();
        }
        let ghost node = self@.nodes[id as int];
        let quorum = self.quorum_size();
        let commit = self.nodes[id].commit_index;
        let current_term = self.nodes[id].current_term;
        let mut idx = self.nodes[id].log.len();
        while idx > commit
            invariant
                idx <= node.log.len(),
                node == self@.nodes[id as int],
                commit == node.commit_index,
                current_term == node.current_term,
                quorum == self@.quorum(),
                id < self@.nodes.len(),
                node.match_index.len() == self@.nodes.len(),
                self.nodes@.len() == self@.nodes.len(),
                self.nodes@[id as int]@ == node,
                highest_committable(node, id as int, self@.nodes.len(), quorum as nat, idx as int)
                    == highest_committable(
                    node,
                    id as int,
                    self@.nodes.len(),
                    quorum as nat,
                    node.log.len() as int,
                ),
            decreases idx,
        {
            assert(self.nodes@[id as int].match_index@ == node.match_index);
            let holding = count_holding(&self.nodes[id].match_index, id, idx);
            let peers = self.nodes[id].match_index.len();
            assert(holding < peers);
            let count = 1 + holding;
            if count >= quorum && self.nodes[id].log[idx - 1].term == current_term {
                return idx;
            }
            idx = idx - 1;
        }
        commit
    }

    fn advance_commit_index(&mut self, id: usize)
        requires
            id < old(self)@.nodes.len(),
            old(self)@.nodes[id as int].match_index.len() == old(self)@.nodes.len(),
        ensures
            final(self)@ == old(self)@.advance_commit_index(id),
    {
        proof {
            self.lemma_nodes_len();
        }
        let new_commit = self.highest_committable_index(id);
        if new_commit > self.nodes[id].commit_index {
            let ghost prev = self.nodes@;
            self.nodes[id].commit_index = new_commit;
            proof {
                lemma_node_written(prev, self.nodes@, id as int);
            }
            let text = make_commit_text(id, new_commit);
            self.log_event(text);
        }
    }

    fn handle_append_entries_reply(
        &mut self,
        id: usize,
        term: u64,
        success: bool,
        follower_id: usize,
        match_index: usize,
    )
        requires
            id < old(self)@.nodes.len(),
            follower_id < old(self)@.nodes.len(),
            match_index < usize::MAX,
            old(self)@.node_ok(id as int),
        ensures
            final(self)@ == old(self)@.handle_append_entries_reply(
                id,
                term,
                success,
                follower_id,
                match_index,
            ),
    {
        proof {
            self.lemma_nodes_len();
        }
        if !self.nodes[id].alive {
            return;
        }
        if term > self.nodes[id].current_term {
            let ghost prev = self.nodes@;
            self.nodes[id].become_follower(term);
            proof {
                lemma_node_written(prev, self.nodes@, id as int);
            }
            return;
        }
        if self.nodes[id].role != Role::Leader || term != self.nodes[id].current_term {
            return;
        }
        if success {
            let ghost prev = self.nodes@;
            self.nodes[id].match_index.set(follower_id, match_index);
            self.nodes[id].next_index.set(follower_id, match_index + 1);
            proof {
                lemma_node_written(prev, self.nodes@, id as int);
            }
            self.advance_commit_index(id);
        } else if self.nodes[id].next_index[follower_id] > 1 {
            let ghost prev = self.nodes@;
            let next = self.nodes[id].next_index[follower_id] - 1;
            self.nodes[id].next_index.set(follower_id, next);
            proof {
                lemma_node_written(prev, self.nodes@, id as int);
            }
        }
    }
}

impl Simulation {
    fn handle_append_entries(
        &mut self,
        id: usize,
        term: u64,
        leader_id: usize,
        prev_log_index: usize,
        prev_log_term: u64,
        entries: Vec<LogEntry>,
        leader_commit: usize,
    )
        requires
            id < old(self)@.nodes.len(),
            leader_id < old(self)@.nodes.len(),
            prev_log_index + entries@.len() <= log_limit(),
            old(self)@.tick_ok(),
            old(self)@.settings_ok(),
        ensures
            final(self)@ == old(self)@.handle_append_entries(
                id,
                term,
                leader_id,
                prev_log_index,
                prev_log_term,
                log_view(entries@),
                leader_commit,
            ),
    {
        proof {
            self.lemma_nodes_len();
        }
        if !self.nodes[id].alive {
            return;
        }
        if term >= self.nodes[id].current_term {
            let ghost prev = self.nodes@;
            let ghost node0 = old(self)@.nodes[id as int];
            if term > self.nodes[id].current_term {
                self.nodes[id].role = Role::Follower;
                self.nodes[id].current_term = term;
                self.nodes[id].voted_for = None;
            } else if self.nodes[id].role != Role::Follower {
                self.nodes[id].role = Role::Follower;
            }
            proof {
                lemma_node_written(prev, self.nodes@, id as int);
                if term > node0.current_term {
                    assert(self@ == old(self)@.with_node(id, NodeView { role: Role::Follower, current_term: term, voted_for: None, ..node0 }));
                } else {
                    assert(self@ == old(self)@.with_node(
                        id,
                        NodeView { role: Role::Follower, ..node0 },
                    ));
                }
            }
            self.reset_election_timer(id);
        }
        proof {
            self.lemma_nodes_len();
        }
        let current_term = self.nodes[id].current_term;
        if term < current_term {
            self.send(
                id,
                leader_id,
                Message::AppendEntriesReply {
                    term: current_term,
                    success: false,
                    follower_id: id,
                    match_index: 0,
                },
            );
            return;
        }
        let success = if prev_log_index > 0 {
            prev_log_index <= self.nodes[id].log.len() && self.nodes[id].log[prev_log_index
                - 1].term == prev_log_term
        } else {
            true
        };
        let match_index = if success {
            let ghost prev = self.nodes@;
            merge_into(&mut self.nodes[id].log, prev_log_index, &entries);
            let log_len = self.nodes[id].log.len();
            if leader_commit > self.nodes[id].commit_index {
                self.nodes[id].commit_index = if leader_commit <= log_len {
                    leader_commit
                } else {
                    log_len
                };
            }
            proof {
                lemma_node_written(prev, self.nodes@, id as int);
            }
            prev_log_index + entries.len()
        } else {
            0
        };
        self.send(
            id,
            leader_id,
            Message::AppendEntriesReply { term: current_term, success, follower_id: id, match_index },
        );
    }

    /// Hands one message to its addressee.
    fn deliver(&mut self, env: Envelope)
        requires
            old(self)@.wf(),
            old(self)@.envelope_ok(env@),
            old(self)@.tick_ok(),
        ensures
            final(self)@ == old(self)@.deliver(env@),
    {
        proof {
            reveal(SimulationView::wf);
            assert(old(self)@.node_ok(env.to as int));
        }
        let to = env.to;
        match env.message {
            Message::RequestVote { term, candidate_id, last_log_index, last_log_term } => {
                self.handle_request_vote(to, term, candidate_id, last_log_index, last_log_term)
            },
            Message::RequestVoteReply { term, vote_granted, voter_id } => {
                self.handle_request_vote_reply(to, term, vote_granted, voter_id)
            },
            Message::AppendEntries {
                term,
                leader_id,
                prev_log_index,
                prev_log_term,
                entries,
                leader_commit,
            } => {
                self.handle_append_entries(
                    to,
                    term,
                    leader_id,
                    prev_log_index,
                    prev_log_term,
                    entries,
                    leader_commit,
                )
            },
            Message::AppendEntriesReply { term, success, follower_id, match_index } => {
                self.handle_append_entries_reply(to, term, success, follower_id, match_index)
            },
        }
    }
}

impl Simulation {
    /// Advances the simulation by exactly one tick: deliver due
    /// messages, then let timers fire.
    pub fn step(&mut self)
        requires
            old(self)@.wf(),
            old(self)@.tick + 301 <= u64::MAX,
            old(self)@.terms_at_most(u64::MAX - 1),
        ensures
            final(self)@ == old(self)@.step(),
            final(self)@.wf(),
            old(self)@.evolves_to(final(self)@),
            final(self)@.tick == old(self)@.tick + 1,
            old(self)@.safe() ==> final(self)@.safe(),
            forall|x: Seq<EnvelopeView>| #[trigger] old(self)@.safe_with(x) ==> final(self)@.safe_with(x),
            forall|b: int| old(self)@.terms_at_most(b) ==> #[trigger] final(self)@.terms_at_most(b + 1),
    {
        proof {
            if old(self)@.safe() {
                lemma_safe_step(old(self)@, u64::MAX - 1);
            }
            assert forall|x: Seq<EnvelopeView>| #[trigger] old(self)@.safe_with(x) implies old(self)@.step().safe_with(x) by {
                lemma_safe_with_step(old(self)@, u64::MAX - 1, x);
            }
        }
        let ghost s0 = self@;
        self.tick = self.tick + 1;
        let tick = self.tick;
        let mut old_inbox: Vec<Envelope> = Vec::new();
        std::mem::swap(&mut old_inbox, &mut self.inbox);
        let ghost q = inbox_view(old_inbox@);
        assert(q == s0.inbox);
        let mut due: Vec<Envelope> = Vec::new();
        let mut remaining: Vec<Envelope> = Vec::new();
        for env in it: old_inbox.into_iter()
            invariant
                q == inbox_view(it.seq()),
                inbox_view(due@) == SimulationView::due_at(q.take(it.index() as int), tick),
                inbox_view(remaining@) == SimulationView::pending_at(q.take(it.index() as int), tick),
        {
            let ghost i = it.index();
            assert(env == it.seq()[i as int]);
            let ghost prefix = q.take(i as int + 1);
            assert(prefix.drop_last() =~= q.take(i as int));
            assert(prefix.last() == env@);
            let ghost due0 = due@;
            let ghost rem0 = remaining@;
            if env.deliver_at <= tick {
                due.push(env);
                assert(inbox_view(due@) =~= inbox_view(due0).push(env@));
            } else {
                remaining.push(env);
                assert(inbox_view(remaining@) =~= inbox_view(rem0).push(env@));
            }
            proof {
                reveal_with_fuel(Seq::filter, 1);
            }
        }
        assert(q.take(q.len() as int) =~= q);
        self.inbox = remaining;
        let ghost s1 = self@;
        let ghost d = inbox_view(due@);
        let ghost b = (u64::MAX - 1) as int;
        proof {
            assert(s1 == SimulationView {
                tick,
                inbox: SimulationView::pending_at(s0.inbox, tick),
                ..s0
            });
            lemma_filtered_inbox(s0, |e: EnvelopeView| e.deliver_at > tick, b);
            lemma_filtered_inbox(s0, |e: EnvelopeView| e.deliver_at <= tick, b);
            reveal(SimulationView::wf);
            assert forall|i: int| 0 <= i < s1.nodes.len() implies #[trigger] s1.node_ok(i) by {
                assert(s0.node_ok(i));
            }
            assert(s1.wf());
            assert(s1.terms_at_most(b));
            assert forall|k: int| 0 <= k < d.len() implies s1.envelope_ok(#[trigger] d[k]) && d[k].message.term() <= b by {
                assert(s0.envelope_ok(d[k]));
            }
            lemma_evolves_refl(s1);
        }
        for env in jt: due.into_iter()
            invariant
                d == inbox_view(jt.seq()),
                b == u64::MAX - 1,
                s1.wf(),
                s1.tick == tick,
                s1.tick + 300 <= u64::MAX,
                forall|k: int| 0 <= k < d.len() ==> s1.envelope_ok(#[trigger] d[k]) && d[k].message.term() <= b,
                self@ == s1.deliver_all(d.take(jt.index() as int)),
                self@.wf(),
                s1.evolves_to(self@),
                self@.tick == tick,
                self@.terms_at_most(b),
        {
            let ghost j = jt.index();
            assert(env == jt.seq()[j as int]);
            assert(d.take(j as int + 1).drop_last() =~= d.take(j as int));
            proof {
                lemma_envelope_kept(s1, self@, d[j as int]);
                lemma_deliver(self@, d[j as int], b);
                lemma_evolves_trans(s1, self@, self@.deliver(d[j as int]));
            }
            self.deliver(env);
        }
        assert(d.take(d.len() as int) =~= d);
        let ghost s2 = self@;
        proof {
            self.lemma_nodes_len();
            lemma_elections(s2, 0, b);
        }
        let n = self.nodes.len();
        let mut id: usize = 0;
        while id < n
            invariant
                id <= n,
                n == s2.nodes.len(),
                b == u64::MAX - 1,
                s2.wf(),
                s2.tick == tick,
                s2.tick + 300 <= u64::MAX,
                s2.terms_at_most(b),
                self@ == s2.elections_below(id as nat),
                self@.wf(),
                self@.nodes.len() == n,
                self.nodes@.len() == n,
                self@.tick == tick,
                forall|j: int| id <= j < n ==> self@.nodes[j] == s2.nodes[j],
            decreases n - id,
        {
            proof {
                self.lemma_nodes_len();
                lemma_elections(s2, id as nat, b);
                lemma_elections(s2, (id + 1) as nat, b);
                lemma_wf_nodes(self@, id as int);
                assert(s2.nodes[id as int].current_term <= b);
            }
            if self.nodes[id].alive && self.nodes[id].role != Role::Leader
                && self.nodes[id].election_deadline <= self.tick {
                self.start_election(id);
            }
            id = id + 1;
        }
        let ghost s3 = self@;
        proof {
            lemma_elections(s2, n as nat, b);
            lemma_heartbeat_rounds(s3, 0, b + 1);
        }
        let mut id: usize = 0;
        while id < n
            invariant
                id <= n,
                n == s3.nodes.len(),
                s3.wf(),
                s3.tick == tick,
                s3.tick + 300 <= u64::MAX,
                self@ == s3.heartbeat_rounds_below(id as nat),
                self@.wf(),
                self@.nodes.len() == n,
                self.nodes@.len() == n,
                self@.tick == tick,
            decreases n - id,
        {
            proof {
                self.lemma_nodes_len();
                lemma_heartbeat_rounds(s3, (id + 1) as nat, b + 1);
                lemma_wf_nodes(self@, id as int);
            }
            if self.nodes[id].alive && self.nodes[id].role == Role::Leader
                && self.nodes[id].heartbeat_deadline <= self.tick {
                self.send_heartbeats(id);
                proof {
                    self.lemma_nodes_len();
                }
                let deadline = self.tick + self.heartbeat_interval;
                let ghost prev = self.nodes@;
                self.nodes[id].heartbeat_deadline = deadline;
                proof {
                    lemma_node_written(prev, self.nodes@, id as int);
                }
            }
            id = id + 1;
            proof {
                lemma_heartbeat_rounds(s3, id as nat, b + 1);
            }
        }
        proof {
            lemma_step(s0, b);
            assert forall|c: int| s0.terms_at_most(c) implies #[trigger] self@.terms_at_most(c + 1) by {
                if c < u64::MAX {
                    lemma_step(s0, c);
                } else {
                    assert forall|i: int| 0 <= i < self@.nodes.len() implies #[trigger] self@.nodes[i].current_term <= c + 1 by {}
                    assert forall|k: int| 0 <= k < self@.inbox.len() implies #[trigger] self@.inbox[k].message.term() <= c + 1 by {}
                }
            }
        }
    }
}

impl Simulation {
    /// Advances the simulation by `steps` ticks.
    pub fn run(&mut self, steps: u64)
        requires
            old(self)@.wf(),
            old(self)@.tick + steps + 300 <= u64::MAX,
            old(self)@.terms_at_most(u64::MAX - 1 - steps),
        ensures
            final(self)@ == old(self)@.run(steps as nat),
            final(self)@.wf(),
            old(self)@.evolves_to(final(self)@),
            final(self)@.tick == old(self)@.tick + steps,
            old(self)@.safe() ==> final(self)@.safe(),
            forall|x: Seq<EnvelopeView>| #[trigger] old(self)@.safe_with(x) ==> final(self)@.safe_with(x),
            forall|b: int| old(self)@.terms_at_most(b) ==> #[trigger] final(self)@.terms_at_most(b + steps),
    {
        let ghost s0 = self@;
        proof {
            lemma_evolves_refl(s0);
        }
        let mut i: u64 = 0;
        while i < steps
            invariant
                i <= steps,
                s0.tick + steps + 300 <= u64::MAX,
                s0.terms_at_most(u64::MAX - 1 - steps),
                self@ == s0.run(i as nat),
                self@.wf(),
                s0.evolves_to(self@),
                self@.tick == s0.tick + i,
                s0.safe() ==> self@.safe(),
                forall|x: Seq<EnvelopeView>| #[trigger] s0.safe_with(x) ==> self@.safe_with(x),
                forall|b: int| s0.terms_at_most(b) ==> #[trigger] self@.terms_at_most(b + i),
            decreases steps - i,
        {
            proof {
                assert(self@.terms_at_most(u64::MAX - 1 - steps + i));
            }
            let ghost before = self@;
            self.step();
            proof {
                lemma_evolves_trans(s0, before, self@);
                assert forall|b: int| s0.terms_at_most(b) implies #[trigger] self@.terms_at_most(b + (i + 1)) by {
                    assert(before.terms_at_most(b + i));
                    assert(self@.terms_at_most(b + i + 1));
                }
            }
            i = i + 1;
        }
    }
}

impl Simulation {
    /// One tick, then the command `commands[submitted]`, if there is one,
    /// to the leader if one can take it; returns the new count.
    fn tick_and_offer(&mut self, commands: &[&str], submitted: usize) -> (k: usize)
        requires
            old(self)@.wf(),
            old(self)@.tick + 301 <= u64::MAX,
            old(self)@.terms_at_most(u64::MAX - 1),
            submitted <= commands@.len(),
        ensures
            ({
                let t = old(self)@.step();
                let cmds = commands@.map_values(|c: &str| c@);
                (final(self)@, k as nat) == (if submitted < cmds.len() && t.can_submit() {
                    (t.submit(cmds[submitted as int]), submitted as nat + 1)
                } else {
                    (t, submitted as nat)
                })
            }),
            k <= commands@.len(),
            final(self)@.wf(),
            old(self)@.evolves_to(final(self)@),
            final(self)@.tick == old(self)@.tick + 1,
            old(self)@.safe() ==> final(self)@.safe(),
            forall|x: Seq<EnvelopeView>| #[trigger] old(self)@.safe_with(x) ==> final(self)@.safe_with(x),
            forall|b: int| old(self)@.terms_at_most(b) ==> #[trigger] final(self)@.terms_at_most(b + 1),
    {
        let ghost before = self@;
        self.step();
        let can = match self.leader() {
            Some(node) => node.log.len() < usize::MAX - 1,
            None => false,
        };
        assert(can == self@.can_submit());
        if submitted < commands.len() && can {
            let ghost mid = self@;
            let mut k = submitted;
            if self.submit_client_request(commands[submitted]).is_ok() {
                k = submitted + 1;
            }
            proof {
                lemma_evolves_trans(before, mid, self@);
                assert forall|b: int| before.terms_at_most(b) implies #[trigger] self@.terms_at_most(b + 1) by {
                    assert(mid.terms_at_most(b + 1));
                }
            }
            k
        } else {
            submitted
        }
    }

    /// Runs `steps` ticks and, after each, hands the next of `commands` to
    /// the leader whenever one can take it; returns how many went in.
    pub fn run_with_commands(&mut self, steps: u64, commands: &[&str]) -> (submitted: usize)
        requires
            old(self)@.wf(),
            old(self)@.tick + steps + 300 <= u64::MAX,
            old(self)@.terms_at_most(u64::MAX - 1 - steps),
        ensures
            (final(self)@, submitted as nat) == old(self)@.scenario(
                commands@.map_values(|c: &str| c@),
                steps as nat,
            ),
            submitted <= commands@.len(),
            final(self)@.wf(),
            old(self)@.evolves_to(final(self)@),
            final(self)@.tick == old(self)@.tick + steps,
            old(self)@.safe() ==> final(self)@.safe(),
            forall|x: Seq<EnvelopeView>| #[trigger] old(self)@.safe_with(x) ==> final(self)@.safe_with(x),
    {
        let ghost s0 = self@;
        let ghost cmds = commands@.map_values(|c: &str| c@);
        proof {
            lemma_evolves_refl(s0);
        }
        let mut submitted: usize = 0;
        let mut i: u64 = 0;
        while i < steps
            invariant
                i <= steps,
                cmds == commands@.map_values(|c: &str| c@),
                s0.tick + steps + 300 <= u64::MAX,
                (self@, submitted as nat) == s0.scenario(cmds, i as nat),
                submitted <= commands@.len(),
                self@.wf(),
                s0.evolves_to(self@),
                self@.tick == s0.tick + i,
                s0.safe() ==> self@.safe(),
                forall|x: Seq<EnvelopeView>| #[trigger] s0.safe_with(x) ==> self@.safe_with(x),
                self@.terms_at_most(u64::MAX - 1 - steps + i),
            decreases steps - i,
        {
            let ghost before = self@;
            let ghost k0 = submitted;
            submitted = self.tick_and_offer(commands, submitted);
            proof {
                lemma_evolves_trans(s0, before, self@);
                assert(before.terms_at_most(u64::MAX - 1 - steps + i));
                assert(self@.terms_at_most(u64::MAX - 1 - steps + i + 1));
                assert(s0.scenario(cmds, (i + 1) as nat) == {
                    let t = before.step();
                    if k0 < cmds.len() && t.can_submit() {
                        (t.submit(cmds[k0 as int]), k0 as nat + 1)
                    } else {
                        (t, k0 as nat)
                    }
                });
            }
            i = i + 1;
        }
        submitted
    }

    /// The node with the highest commit index, the last of them where
    /// several share it; `None` for an empty cluster.
    pub fn most_committed(&self) -> (r: Option<usize>)
        ensures
            r is None <==> self@.nodes.len() == 0,
            r matches Some(b) ==> {
                &&& b < self@.nodes.len()
                &&& forall|j: int|
                    0 <= j < self@.nodes.len() ==> #[trigger] self@.nodes[j].commit_index
                        <= self@.nodes[b as int].commit_index
                &&& forall|j: int|
                    b < j < self@.nodes.len() ==> #[trigger] self@.nodes[j].commit_index
                        < self@.nodes[b as int].commit_index
            },
    {
        proof {
            self.lemma_nodes_len();
        }
        if self.nodes.len() == 0 {
            return None;
        }
        let mut best: usize = 0;
        let mut i: usize = 1;
        while i < self.nodes.len()
            invariant
                1 <= i <= self.nodes.len(),
                best < i,
                self@.nodes.len() == self.nodes@.len(),
                forall|k: int| 0 <= k < self.nodes@.len() ==> #[trigger] self@.nodes[k] == self.nodes@[k]@,
                forall|j: int|
                    0 <= j < i ==> #[trigger] self@.nodes[j].commit_index
                        <= self@.nodes[best as int].commit_index,
                forall|j: int|
                    best < j < i ==> #[trigger] self@.nodes[j].commit_index
                        < self@.nodes[best as int].commit_index,
            decreases self.nodes.len() - i,
        {
            if self.nodes[i].commit_index >= self.nodes[best].commit_index {
                best = i;
            }
            i = i + 1;
        }
        Some(best)
    }
}

} // verus!
