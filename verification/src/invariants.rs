//! Every operation of the simulation keeps it well formed, lets every node
//! only evolve, and raises no term by more than one per tick.

use crate::message::{EnvelopeView, MessageView};
use crate::message::LogEntryView;
use crate::model::{
    highest_committable, log_limit, merge_entries, merge_entry, node_evolves, SimulationView,
};
use crate::node::{fresh_node, NodeView, Role};
use crate::text::{
    commit_text, election_text, killed_text, leader_text, request_text, revived_text, vote_text,
};
use vstd::prelude::*;

verus! {

pub proof fn lemma_evolves_refl(s: SimulationView)
    ensures
        s.evolves_to(s),
{
}

pub proof fn lemma_evolves_trans(a: SimulationView, b: SimulationView, c: SimulationView)
    requires
        a.evolves_to(b),
        b.evolves_to(c),
    ensures
        a.evolves_to(c),
{
    assert forall|i: int| 0 <= i < a.nodes.len() implies node_evolves(#[trigger] a.nodes[i], c.nodes[i]) by {
        assert(node_evolves(a.nodes[i], b.nodes[i]));
        assert(node_evolves(b.nodes[i], c.nodes[i]));
    }
}

/// What a message tells about its leader stays true as the nodes evolve.
pub proof fn lemma_covers_kept(s: SimulationView, t: SimulationView, leader: usize, term: u64, len: int)
    requires
        s.evolves_to(t),
        leader < s.nodes.len(),
        s.leader_covers(leader, term, len),
    ensures
        t.leader_covers(leader, term, len),
{
    assert(node_evolves(s.nodes[leader as int], t.nodes[leader as int]));
}

pub proof fn lemma_envelope_kept(s: SimulationView, t: SimulationView, env: EnvelopeView)
    requires
        s.evolves_to(t),
        s.envelope_ok(env),
    ensures
        t.envelope_ok(env),
{
    match env.message {
        MessageView::AppendEntries { term, leader_id, prev_log_index, entries, .. } => {
            lemma_covers_kept(s, t, leader_id, term, prev_log_index + entries.len());
        },
        MessageView::AppendEntriesReply { term, success, match_index, .. } => {
            if success {
                lemma_covers_kept(s, t, env.to, term, match_index as int);
            }
        },
        _ => {},
    }
}

/// A later state is well formed when its nodes are, its settings are, and
/// its bus holds the earlier bus followed by well-formed new messages.
pub proof fn lemma_wf_after(s: SimulationView, t: SimulationView)
    requires
        s.wf(),
        s.evolves_to(t),
        t.settings_ok(),
        forall|i: int| 0 <= i < t.nodes.len() ==> #[trigger] t.node_ok(i),
        s.inbox.len() <= t.inbox.len(),
        forall|k: int| 0 <= k < s.inbox.len() ==> #[trigger] t.inbox[k] == s.inbox[k],
        forall|k: int| s.inbox.len() <= k < t.inbox.len() ==> t.envelope_ok(#[trigger] t.inbox[k]),
    ensures
        t.wf(),
{
    reveal(SimulationView::wf);
    assert forall|k: int| 0 <= k < t.inbox.len() implies t.envelope_ok(#[trigger] t.inbox[k]) by {
        if k < s.inbox.len() {
            assert(s.envelope_ok(s.inbox[k]));
            lemma_envelope_kept(s, t, s.inbox[k]);
        }
    }
}

/// Nodes that did not change stay well formed.
pub proof fn lemma_node_ok_same(s: SimulationView, t: SimulationView, i: int)
    requires
        s.node_ok(i),
        t.nodes.len() == s.nodes.len(),
        t.nodes[i] == s.nodes[i],
    ensures
        t.node_ok(i),
{
}

pub proof fn lemma_wf_nodes(s: SimulationView, i: int)
    requires
        s.wf(),
        0 <= i < s.nodes.len(),
    ensures
        s.node_ok(i),
        s.settings_ok(),
        s.inbox_ok(),
        s.nodes.len() <= usize::MAX,
{
    reveal(SimulationView::wf);
}

/// The bus and the nodes are all that well-formedness and evolution see.
pub proof fn lemma_same_nodes_and_inbox(s: SimulationView, t: SimulationView)
    requires
        s.wf(),
        t.nodes == s.nodes,
        t.inbox == s.inbox,
        t.election_timeout_min == s.election_timeout_min,
        t.election_timeout_max == s.election_timeout_max,
        t.heartbeat_interval == s.heartbeat_interval,
        t.network_delay == s.network_delay,
    ensures
        t.wf(),
        s.evolves_to(t),
{
    reveal(SimulationView::wf);
    assert forall|i: int| 0 <= i < t.nodes.len() implies #[trigger] t.node_ok(i) by {
        assert(s.node_ok(i));
    }
    assert forall|k: int| 0 <= k < t.inbox.len() implies t.envelope_ok(#[trigger] t.inbox[k]) by {
        assert(s.envelope_ok(s.inbox[k]));
    }
}

pub proof fn lemma_log_event(s: SimulationView, msg: Seq<char>, b: int)
    requires
        s.wf(),
    ensures
        s.log_event(msg).wf(),
        s.evolves_to(s.log_event(msg)),
        s.log_event(msg).nodes == s.nodes,
        s.log_event(msg).inbox == s.inbox,
        s.log_event(msg).tick == s.tick,
        s.terms_at_most(b) ==> s.log_event(msg).terms_at_most(b),
{
    lemma_same_nodes_and_inbox(s, s.log_event(msg));
}

/// Changing node `i` into a node it may evolve into, which is well formed.
pub proof fn lemma_with_node(s: SimulationView, i: usize, node: NodeView, b: int)
    requires
        s.wf(),
        i < s.nodes.len(),
        node_evolves(s.nodes[i as int], node),
        s.with_node(i, node).node_ok(i as int),
    ensures
        s.with_node(i, node).wf(),
        s.evolves_to(s.with_node(i, node)),
        s.with_node(i, node).tick == s.tick,
        s.with_node(i, node).inbox == s.inbox,
        s.terms_at_most(b) && node.current_term <= b ==> s.with_node(i, node).terms_at_most(b),
{
    let t = s.with_node(i, node);
    reveal(SimulationView::wf);
    assert forall|j: int| 0 <= j < s.nodes.len() implies node_evolves(#[trigger] s.nodes[j], t.nodes[j]) by {
        if j != i {
            assert(t.nodes[j] == s.nodes[j]);
        }
    }
    assert forall|j: int| 0 <= j < t.nodes.len() implies #[trigger] t.node_ok(j) by {
        if j != i {
            assert(s.node_ok(j));
            lemma_node_ok_same(s, t, j);
        }
    }
    lemma_wf_after(s, t);
}

pub proof fn lemma_reset_election_timer(s: SimulationView, i: usize, b: int)
    requires
        s.wf(),
        i < s.nodes.len(),
    ensures
        s.reset_election_timer(i).wf(),
        s.evolves_to(s.reset_election_timer(i)),
        s.reset_election_timer(i).tick == s.tick,
        s.reset_election_timer(i).inbox == s.inbox,
        s.reset_election_timer(i).nodes.len() == s.nodes.len(),
        forall|j: int| 0 <= j < s.nodes.len() && j != i ==> s.reset_election_timer(i).nodes[j] == s.nodes[j],
        s.reset_election_timer(i).nodes[i as int] == (NodeView {
            election_deadline: s.reset_election_timer(i).nodes[i as int].election_deadline,
            ..s.nodes[i as int]
        }),
        s.terms_at_most(b) ==> s.reset_election_timer(i).terms_at_most(b),
{
    let t = s.reset_election_timer(i);
    let node = t.nodes[i as int];
    lemma_wf_nodes(s, i as int);
    lemma_with_node(s, i, node, b);
    assert(t == SimulationView { rng: t.rng, ..s.with_node(i, node) });
    lemma_same_nodes_and_inbox(s.with_node(i, node), t);
    lemma_evolves_trans(s, s.with_node(i, node), t);
}

pub proof fn lemma_send(s: SimulationView, from: usize, to: usize, m: MessageView, b: int)
    requires
        s.wf(),
        from < s.nodes.len(),
        to < s.nodes.len(),
        s.message_ok(to, m),
    ensures
        s.send(from, to, m).wf(),
        s.evolves_to(s.send(from, to, m)),
        s.send(from, to, m).nodes == s.nodes,
        s.send(from, to, m).tick == s.tick,
        s.terms_at_most(b) && m.term() <= b ==> s.send(from, to, m).terms_at_most(b),
{
    let t = s.send(from, to, m);
    lemma_evolves_refl(s);
    assert(s.evolves_to(t));
    reveal(SimulationView::wf);
    assert forall|i: int| 0 <= i < t.nodes.len() implies #[trigger] t.node_ok(i) by {
        assert(s.node_ok(i));
    }
    lemma_wf_after(s, t);
}

pub proof fn lemma_send_to_peers(s: SimulationView, from: usize, m: MessageView, k: nat, b: int)
    requires
        s.wf(),
        from < s.nodes.len(),
        k <= s.nodes.len(),
        forall|to: usize| to < s.nodes.len() ==> s.message_ok(to, m),
    ensures
        s.send_to_peers_below(from, m, k).wf(),
        s.evolves_to(s.send_to_peers_below(from, m, k)),
        s.send_to_peers_below(from, m, k).nodes == s.nodes,
        s.send_to_peers_below(from, m, k).tick == s.tick,
        s.terms_at_most(b) && m.term() <= b ==> s.send_to_peers_below(from, m, k).terms_at_most(b),
    decreases k,
{
    if k == 0 {
        lemma_evolves_refl(s);
    } else {
        let t = s.send_to_peers_below(from, m, (k - 1) as nat);
        lemma_send_to_peers(s, from, m, (k - 1) as nat, b);
        if k - 1 != from {
            assert(t.message_ok((k - 1) as usize, m) == s.message_ok((k - 1) as usize, m));
            lemma_send(t, from, (k - 1) as usize, m, b);
            lemma_evolves_trans(s, t, t.send(from, (k - 1) as usize, m));
        }
    }
}

/// Leader `id`'s AppendEntries cover exactly its whole log.
pub proof fn lemma_heartbeat_message_ok(s: SimulationView, id: usize, peer: usize)
    requires
        id < s.nodes.len(),
        peer < s.nodes.len(),
        s.node_ok(id as int),
        s.nodes[id as int].role == Role::Leader,
    ensures
        s.message_ok(peer, s.heartbeat_message(id, peer)),
        s.heartbeat_message(id, peer).term() == s.nodes[id as int].current_term,
        s.heartbeat_message(id, peer) matches MessageView::AppendEntries {
            prev_log_index,
            entries,
            ..
        } ==> prev_log_index + entries.len() == s.nodes[id as int].log.len(),
{
    let node = s.nodes[id as int];
    assert(1 <= node.next_index[peer as int] <= node.log.len() + 1);
}

pub proof fn lemma_heartbeats(s: SimulationView, id: usize, k: nat, b: int)
    requires
        s.wf(),
        id < s.nodes.len(),
        k <= s.nodes.len(),
        s.nodes[id as int].role == Role::Leader,
    ensures
        s.heartbeats_below(id, k).wf(),
        s.evolves_to(s.heartbeats_below(id, k)),
        s.heartbeats_below(id, k).nodes == s.nodes,
        s.heartbeats_below(id, k).tick == s.tick,
        s.terms_at_most(b) ==> s.heartbeats_below(id, k).terms_at_most(b),
    decreases k,
{
    lemma_wf_nodes(s, id as int);
    if k == 0 {
        lemma_evolves_refl(s);
    } else {
        let t = s.heartbeats_below(id, (k - 1) as nat);
        lemma_heartbeats(s, id, (k - 1) as nat, b);
        if k - 1 != id {
            let m = s.heartbeat_message(id, (k - 1) as usize);
            lemma_heartbeat_message_ok(s, id, (k - 1) as usize);
            assert(t.message_ok((k - 1) as usize, m) == s.message_ok((k - 1) as usize, m));
            lemma_send(t, id, (k - 1) as usize, m, b);
            lemma_evolves_trans(s, t, t.send(id, (k - 1) as usize, m));
            if s.terms_at_most(b) {
                assert(s.nodes[id as int].current_term <= b);
            }
        }
    }
}

pub proof fn lemma_send_heartbeats(s: SimulationView, id: usize, b: int)
    requires
        s.wf(),
        id < s.nodes.len(),
    ensures
        s.send_heartbeats(id).wf(),
        s.evolves_to(s.send_heartbeats(id)),
        s.send_heartbeats(id).nodes == s.nodes,
        s.send_heartbeats(id).tick == s.tick,
        s.terms_at_most(b) ==> s.send_heartbeats(id).terms_at_most(b),
{
    let node = s.nodes[id as int];
    if !node.alive || node.role != Role::Leader {
        lemma_evolves_refl(s);
    } else {
        lemma_heartbeats(s, id, s.nodes.len(), b);
    }
}

/// Candidate `i` taking office.
pub proof fn lemma_become_leader(s: SimulationView, i: usize, b: int)
    requires
        s.wf(),
        i < s.nodes.len(),
        s.nodes[i as int].role == Role::Candidate,
    ensures
        s.become_leader(i).wf(),
        s.evolves_to(s.become_leader(i)),
        s.become_leader(i).tick == s.tick,
        s.become_leader(i).nodes.len() == s.nodes.len(),
        forall|j: int| 0 <= j < s.nodes.len() && j != i ==> s.become_leader(i).nodes[j] == s.nodes[j],
        s.become_leader(i).nodes[i as int].current_term == s.nodes[i as int].current_term,
        s.terms_at_most(b) ==> s.become_leader(i).terms_at_most(b),
{
    let node = s.nodes[i as int];
    let len = node.log.len();
    let n = s.nodes.len();
    let leader = NodeView {
        role: Role::Leader,
        next_index: Seq::new(n, |k: int| (len + 1) as usize),
        match_index: Seq::new(n, |k: int| 0usize).update(i as int, len as usize),
        ..node
    };
    lemma_wf_nodes(s, i as int);
    let s1 = s.with_node(i, leader);
    assert(s1.node_ok(i as int));
    lemma_with_node(s, i, leader, b);
    let s15 = s1.log_event(leader_text(i, node.current_term));
    lemma_log_event(s1, leader_text(i, node.current_term), b);
    let s2 = s15.send_heartbeats(i);
    lemma_send_heartbeats(s15, i, b);
    let last = NodeView { heartbeat_deadline: (s2.tick + s2.heartbeat_interval) as u64, ..s2.nodes[i as int] };
    lemma_wf_nodes(s2, i as int);
    assert(s2.with_node(i, last).node_ok(i as int));
    lemma_with_node(s2, i, last, b);
    lemma_evolves_trans(s, s1, s15);
    lemma_evolves_trans(s, s15, s2);
    lemma_evolves_trans(s, s2, s2.with_node(i, last));
}

/// Node `i` calling an election.
pub proof fn lemma_start_election(s: SimulationView, i: usize, b: int)
    requires
        s.wf(),
        i < s.nodes.len(),
        s.nodes[i as int].current_term < u64::MAX,
    ensures
        s.start_election(i).wf(),
        s.evolves_to(s.start_election(i)),
        s.start_election(i).tick == s.tick,
        s.start_election(i).nodes.len() == s.nodes.len(),
        forall|j: int| 0 <= j < s.nodes.len() && j != i ==> s.start_election(i).nodes[j] == s.nodes[j],
        s.start_election(i).nodes[i as int].current_term <= s.nodes[i as int].current_term + 1,
        s.terms_at_most(b + 1) && s.nodes[i as int].current_term <= b ==> s.start_election(
            i,
        ).terms_at_most(b + 1),
{
    let node = s.nodes[i as int];
    if !node.alive {
        lemma_evolves_refl(s);
    } else {
        let term = (node.current_term + 1) as u64;
        let cand = NodeView {
            role: Role::Candidate,
            current_term: term,
            voted_for: Some(i),
            votes_received: Set::empty().insert(i),
            ..node
        };
        lemma_wf_nodes(s, i as int);
        let s1 = s.with_node(i, cand);
        assert(s1.node_ok(i as int));
        lemma_with_node(s, i, cand, b + 1);
        let s15 = s1.log_event(election_text(i, term));
        lemma_log_event(s1, election_text(i, term), b + 1);
        let s2 = s15.reset_election_timer(i);
        lemma_reset_election_timer(s15, i, b + 1);
        let request = MessageView::RequestVote {
            term,
            candidate_id: i,
            last_log_index: s2.nodes[i as int].log.len() as usize,
            last_log_term: s2.nodes[i as int].last_log_term(),
        };
        let s3 = s2.send_to_peers_below(i, request, s2.nodes.len());
        lemma_send_to_peers(s2, i, request, s2.nodes.len(), b + 1);
        lemma_evolves_trans(s, s1, s15);
        lemma_evolves_trans(s, s15, s2);
        lemma_evolves_trans(s, s2, s3);
        if s3.nodes[i as int].votes_received.len() >= s3.quorum() {
            lemma_become_leader(s3, i, b + 1);
            lemma_evolves_trans(s, s3, s3.become_leader(i));
        }
    }
}

pub proof fn lemma_merge_len(log: Seq<LogEntryView>, idx: int, entries: Seq<LogEntryView>)
    requires
        0 <= idx,
    ensures
        merge_entries(log, idx, entries).len() <= log.len() || merge_entries(log, idx, entries).len()
            <= idx + entries.len(),
    decreases entries.len(),
{
    if entries.len() > 0 {
        let next = merge_entry(log, idx, entries[0]);
        assert(next.len() <= log.len() || next.len() <= idx + 1);
        lemma_merge_len(next, idx + 1, entries.drop_first());
    }
}

pub proof fn lemma_highest_committable_bounds(node: NodeView, id: int, n: nat, quorum: nat, idx: int)
    ensures
        node.commit_index <= highest_committable(node, id, n, quorum, idx),
        highest_committable(node, id, n, quorum, idx) <= node.commit_index || highest_committable(
            node,
            id,
            n,
            quorum,
            idx,
        ) <= idx,
    decreases idx,
{
    if idx > node.commit_index {
        lemma_highest_committable_bounds(node, id, n, quorum, idx - 1);
    }
}

pub proof fn lemma_handle_request_vote(
    s: SimulationView,
    id: usize,
    term: u64,
    candidate_id: usize,
    last_log_index: usize,
    last_log_term: u64,
    b: int,
)
    requires
        s.wf(),
        id < s.nodes.len(),
        candidate_id < s.nodes.len(),
    ensures
        ({
            let t = s.handle_request_vote(id, term, candidate_id, last_log_index, last_log_term);
            &&& t.wf()
            &&& s.evolves_to(t)
            &&& t.tick == s.tick
            &&& s.terms_at_most(b) && term <= b ==> t.terms_at_most(b)
        }),
{
    let node0 = s.nodes[id as int];
    if !node0.alive {
        lemma_evolves_refl(s);
    } else {
        lemma_wf_nodes(s, id as int);
        let s1 = if term > node0.current_term {
            s.with_node(id, node0.become_follower(term))
        } else {
            s
        };
        if term > node0.current_term {
            assert(s1.node_ok(id as int));
            lemma_with_node(s, id, node0.become_follower(term), b);
        } else {
            lemma_evolves_refl(s);
        }
        let node = s1.nodes[id as int];
        let grant = term >= node.current_term && node.up_to_date(
            last_log_term,
            last_log_index as int,
        ) && (node.voted_for is None || node.voted_for == Some(candidate_id));
        let voter = NodeView { voted_for: Some(candidate_id), ..node };
        let s2 = if grant {
            s1.with_node(id, voter).reset_election_timer(id)
        } else {
            s1
        };
        if grant {
            lemma_wf_nodes(s1, id as int);
            assert(s1.with_node(id, voter).node_ok(id as int));
            lemma_with_node(s1, id, voter, b);
            lemma_reset_election_timer(s1.with_node(id, voter), id, b);
            lemma_evolves_trans(s1, s1.with_node(id, voter), s2);
        } else {
            lemma_evolves_refl(s1);
        }
        lemma_evolves_trans(s, s1, s2);
        let reply_term = s2.nodes[id as int].current_term;
        let s3 = s2.log_event(vote_text(id, grant, candidate_id, reply_term));
        lemma_log_event(s2, vote_text(id, grant, candidate_id, reply_term), b);
        lemma_evolves_trans(s, s2, s3);
        let reply = MessageView::RequestVoteReply { term: reply_term, vote_granted: grant, voter_id: id };
        lemma_send(s3, id, candidate_id, reply, b);
        lemma_evolves_trans(s, s3, s3.send(id, candidate_id, reply));
    }
}

pub proof fn lemma_handle_request_vote_reply(
    s: SimulationView,
    id: usize,
    term: u64,
    vote_granted: bool,
    voter_id: usize,
    b: int,
)
    requires
        s.wf(),
        id < s.nodes.len(),
    ensures
        ({
            let t = s.handle_request_vote_reply(id, term, vote_granted, voter_id);
            &&& t.wf()
            &&& s.evolves_to(t)
            &&& t.tick == s.tick
            &&& s.terms_at_most(b) && term <= b ==> t.terms_at_most(b)
        }),
{
    let node = s.nodes[id as int];
    lemma_wf_nodes(s, id as int);
    if !node.alive {
        lemma_evolves_refl(s);
    } else if term > node.current_term {
        assert(s.with_node(id, node.become_follower(term)).node_ok(id as int));
        lemma_with_node(s, id, node.become_follower(term), b);
    } else if node.role != Role::Candidate || term != node.current_term {
        lemma_evolves_refl(s);
    } else if vote_granted {
        let counted = NodeView { votes_received: node.votes_received.insert(voter_id), ..node };
        let s1 = s.with_node(id, counted);
        assert(s1.node_ok(id as int));
        lemma_with_node(s, id, counted, b);
        if s1.nodes[id as int].votes_received.len() >= s1.quorum() {
            lemma_become_leader(s1, id, b);
            lemma_evolves_trans(s, s1, s1.become_leader(id));
        }
    } else {
        lemma_evolves_refl(s);
    }
}

pub proof fn lemma_handle_append_entries(
    s: SimulationView,
    id: usize,
    term: u64,
    leader_id: usize,
    prev_log_index: usize,
    prev_log_term: u64,
    entries: Seq<LogEntryView>,
    leader_commit: usize,
    b: int,
)
    requires
        s.wf(),
        id < s.nodes.len(),
        s.message_ok(
            id,
            MessageView::AppendEntries {
                term,
                leader_id,
                prev_log_index,
                prev_log_term,
                entries,
                leader_commit,
            },
        ),
    ensures
        ({
            let t = s.handle_append_entries(
                id,
                term,
                leader_id,
                prev_log_index,
                prev_log_term,
                entries,
                leader_commit,
            );
            &&& t.wf()
            &&& s.evolves_to(t)
            &&& t.tick == s.tick
            &&& s.terms_at_most(b) && term <= b ==> t.terms_at_most(b)
        }),
{
    let node0 = s.nodes[id as int];
    lemma_wf_nodes(s, id as int);
    if !node0.alive {
        lemma_evolves_refl(s);
    } else if term < node0.current_term {
        let reply = MessageView::AppendEntriesReply {
            term: node0.current_term,
            success: false,
            follower_id: id,
            match_index: 0,
        };
        lemma_send(s, id, leader_id, reply, b);
    } else {
        let follower = if term > node0.current_term {
            NodeView { role: Role::Follower, current_term: term, voted_for: None, ..node0 }
        } else {
            NodeView { role: Role::Follower, ..node0 }
        };
        let s0 = s.with_node(id, follower);
        assert(s0.node_ok(id as int));
        lemma_with_node(s, id, follower, b);
        let s1 = s0.reset_election_timer(id);
        lemma_reset_election_timer(s0, id, b);
        lemma_evolves_trans(s, s0, s1);
        let node = s1.nodes[id as int];
        let success = prev_log_index > 0 ==> (prev_log_index <= node.log.len()
            && node.log[prev_log_index - 1].term == prev_log_term);
        if success {
            let log = merge_entries(node.log, prev_log_index as int, entries);
            lemma_merge_len(node.log, prev_log_index as int, entries);
            let commit_index = if leader_commit > node.commit_index {
                if leader_commit <= log.len() {
                    leader_commit
                } else {
                    log.len() as usize
                }
            } else {
                node.commit_index
            };
            let updated = NodeView { log, commit_index, ..node };
            lemma_wf_nodes(s1, id as int);
            assert(s1.with_node(id, updated).node_ok(id as int));
            lemma_with_node(s1, id, updated, b);
            let s2 = s1.with_node(id, updated);
            lemma_evolves_trans(s, s1, s2);
            let reply = MessageView::AppendEntriesReply {
                term,
                success: true,
                follower_id: id,
                match_index: (prev_log_index + entries.len()) as usize,
            };
            lemma_covers_kept(s, s2, leader_id, term, prev_log_index + entries.len());
            lemma_send(s2, id, leader_id, reply, b);
            lemma_evolves_trans(s, s2, s2.send(id, leader_id, reply));
        } else {
            let reply = MessageView::AppendEntriesReply {
                term,
                success: false,
                follower_id: id,
                match_index: 0,
            };
            lemma_send(s1, id, leader_id, reply, b);
            lemma_evolves_trans(s, s1, s1.send(id, leader_id, reply));
        }
    }
}

pub proof fn lemma_advance_commit_index(s: SimulationView, id: usize, b: int)
    requires
        s.wf(),
        id < s.nodes.len(),
    ensures
        s.advance_commit_index(id).wf(),
        s.evolves_to(s.advance_commit_index(id)),
        s.advance_commit_index(id).tick == s.tick,
        s.terms_at_most(b) ==> s.advance_commit_index(id).terms_at_most(b),
{
    let node = s.nodes[id as int];
    lemma_wf_nodes(s, id as int);
    let new_commit = highest_committable(node, id as int, s.nodes.len(), s.quorum(), node.log.len() as int);
    lemma_highest_committable_bounds(node, id as int, s.nodes.len(), s.quorum(), node.log.len() as int);
    if new_commit > node.commit_index {
        let updated = NodeView { commit_index: new_commit as usize, ..node };
        assert(s.with_node(id, updated).node_ok(id as int));
        lemma_with_node(s, id, updated, b);
        lemma_log_event(s.with_node(id, updated), commit_text(id, new_commit as usize), b);
        lemma_evolves_trans(s, s.with_node(id, updated), s.advance_commit_index(id));
    } else {
        lemma_evolves_refl(s);
    }
}

pub proof fn lemma_handle_append_entries_reply(
    s: SimulationView,
    id: usize,
    term: u64,
    success: bool,
    follower_id: usize,
    match_index: usize,
    b: int,
)
    requires
        s.wf(),
        id < s.nodes.len(),
        s.message_ok(
            id,
            MessageView::AppendEntriesReply { term, success, follower_id, match_index },
        ),
    ensures
        ({
            let t = s.handle_append_entries_reply(id, term, success, follower_id, match_index);
            &&& t.wf()
            &&& s.evolves_to(t)
            &&& t.tick == s.tick
            &&& s.terms_at_most(b) && term <= b ==> t.terms_at_most(b)
        }),
{
    let node = s.nodes[id as int];
    lemma_wf_nodes(s, id as int);
    if !node.alive {
        lemma_evolves_refl(s);
    } else if term > node.current_term {
        assert(s.with_node(id, node.become_follower(term)).node_ok(id as int));
        lemma_with_node(s, id, node.become_follower(term), b);
    } else if node.role != Role::Leader || term != node.current_term {
        lemma_evolves_refl(s);
    } else if success {
        let updated = NodeView {
            match_index: node.match_index.update(follower_id as int, match_index),
            next_index: node.next_index.update(follower_id as int, (match_index + 1) as usize),
            ..node
        };
        let s1 = s.with_node(id, updated);
        assert(s1.node_ok(id as int));
        lemma_with_node(s, id, updated, b);
        lemma_advance_commit_index(s1, id, b);
        lemma_evolves_trans(s, s1, s1.advance_commit_index(id));
    } else if node.next_index[follower_id as int] > 1 {
        let updated = NodeView {
            next_index: node.next_index.update(
                follower_id as int,
                (node.next_index[follower_id as int] - 1) as usize,
            ),
            ..node
        };
        assert(s.with_node(id, updated).node_ok(id as int));
        lemma_with_node(s, id, updated, b);
    } else {
        lemma_evolves_refl(s);
    }
}

pub proof fn lemma_deliver(s: SimulationView, env: EnvelopeView, b: int)
    requires
        s.wf(),
        s.envelope_ok(env),
    ensures
        s.deliver(env).wf(),
        s.evolves_to(s.deliver(env)),
        s.deliver(env).tick == s.tick,
        s.terms_at_most(b) && env.message.term() <= b ==> s.deliver(env).terms_at_most(b),
{
    match env.message {
        MessageView::RequestVote { term, candidate_id, last_log_index, last_log_term } => {
            lemma_handle_request_vote(s, env.to, term, candidate_id, last_log_index, last_log_term, b);
        },
        MessageView::RequestVoteReply { term, vote_granted, voter_id } => {
            lemma_handle_request_vote_reply(s, env.to, term, vote_granted, voter_id, b);
        },
        MessageView::AppendEntries {
            term,
            leader_id,
            prev_log_index,
            prev_log_term,
            entries,
            leader_commit,
        } => {
            lemma_handle_append_entries(
                s,
                env.to,
                term,
                leader_id,
                prev_log_index,
                prev_log_term,
                entries,
                leader_commit,
                b,
            );
        },
        MessageView::AppendEntriesReply { term, success, follower_id, match_index } => {
            lemma_handle_append_entries_reply(s, env.to, term, success, follower_id, match_index, b);
        },
    }
}

/// Every element of a filtered sequence comes from the sequence.
pub proof fn lemma_filter_from<A>(q: Seq<A>, pred: spec_fn(A) -> bool)
    ensures
        forall|i: int| 0 <= i < q.filter(pred).len() ==> q.contains(#[trigger] q.filter(pred)[i]),
    decreases q.len(),
{
    reveal(Seq::filter);
    if q.len() > 0 {
        lemma_filter_from(q.drop_last(), pred);
        let f = q.filter(pred);
        let g = q.drop_last().filter(pred);
        assert forall|i: int| 0 <= i < f.len() implies q.contains(#[trigger] f[i]) by {
            if i < g.len() {
                assert(f[i] == g[i]);
                assert(q.drop_last().contains(g[i]));
                let j = choose|j: int| 0 <= j < q.drop_last().len() && q.drop_last()[j] == g[i];
                assert(q[j] == g[i]);
            } else {
                assert(f[i] == q.last());
                assert(q[q.len() - 1] == q.last());
            }
        }
    }
}

/// Messages taken from a well-formed bus are well formed and carry bounded terms.
pub proof fn lemma_filtered_inbox(s: SimulationView, pred: spec_fn(EnvelopeView) -> bool, b: int)
    requires
        s.wf(),
    ensures
        forall|k: int|
            0 <= k < s.inbox.filter(pred).len() ==> s.envelope_ok(#[trigger] s.inbox.filter(pred)[k]),
        s.terms_at_most(b) ==> forall|k: int|
            0 <= k < s.inbox.filter(pred).len() ==> (#[trigger] s.inbox.filter(pred)[k]).message.term()
                <= b,
{
    reveal(SimulationView::wf);
    lemma_filter_from(s.inbox, pred);
    assert forall|k: int| 0 <= k < s.inbox.filter(pred).len() implies s.envelope_ok(
        #[trigger] s.inbox.filter(pred)[k],
    ) && (s.terms_at_most(b) ==> s.inbox.filter(pred)[k].message.term() <= b) by {
        let e = s.inbox.filter(pred)[k];
        assert(s.inbox.contains(e));
        let j = choose|j: int| 0 <= j < s.inbox.len() && s.inbox[j] == e;
        assert(s.envelope_ok(s.inbox[j]));
    }
}

pub proof fn lemma_deliver_all(s: SimulationView, msgs: Seq<EnvelopeView>, b: int)
    requires
        s.wf(),
        forall|k: int| 0 <= k < msgs.len() ==> s.envelope_ok(#[trigger] msgs[k]),
    ensures
        s.deliver_all(msgs).wf(),
        s.evolves_to(s.deliver_all(msgs)),
        s.deliver_all(msgs).tick == s.tick,
        s.terms_at_most(b) && (forall|k: int| 0 <= k < msgs.len() ==> (#[trigger] msgs[k]).message.term()
            <= b) ==> s.deliver_all(msgs).terms_at_most(b),
    decreases msgs.len(),
{
    if msgs.len() == 0 {
        lemma_evolves_refl(s);
    } else {
        let init = msgs.drop_last();
        assert forall|k: int| 0 <= k < init.len() implies s.envelope_ok(#[trigger] init[k]) by {
            assert(init[k] == msgs[k]);
        }
        lemma_deliver_all(s, init, b);
        let t = s.deliver_all(init);
        assert(s.envelope_ok(msgs[msgs.len() - 1]));
        lemma_envelope_kept(s, t, msgs.last());
        lemma_deliver(t, msgs.last(), b);
        lemma_evolves_trans(s, t, t.deliver(msgs.last()));
        if s.terms_at_most(b) && (forall|k: int| 0 <= k < msgs.len() ==> (#[trigger] msgs[k]).message.term() <= b) {
            assert forall|k: int| 0 <= k < init.len() implies (#[trigger] init[k]).message.term() <= b by {
                assert(init[k] == msgs[k]);
            }
            assert(msgs[msgs.len() - 1].message.term() <= b);
        }
    }
}

pub proof fn lemma_elections(s: SimulationView, k: nat, b: int)
    requires
        s.wf(),
        k <= s.nodes.len(),
        b < u64::MAX,
        s.terms_at_most(b),
    ensures
        s.elections_below(k).wf(),
        s.evolves_to(s.elections_below(k)),
        s.elections_below(k).tick == s.tick,
        s.elections_below(k).terms_at_most(b + 1),
        s.elections_below(k).nodes.len() == s.nodes.len(),
        forall|j: int| k <= j < s.nodes.len() ==> s.elections_below(k).nodes[j] == s.nodes[j],
    decreases k,
{
    if k == 0 {
        lemma_evolves_refl(s);
    } else {
        reveal(SimulationView::wf);
        lemma_elections(s, (k - 1) as nat, b);
        let t = s.elections_below((k - 1) as nat);
        let i = (k - 1) as usize;
        assert(t.nodes[i as int] == s.nodes[i as int]);
        assert(s.nodes[i as int].current_term <= b);
        if t.election_due(i as int) {
            lemma_start_election(t, i, b);
            lemma_evolves_trans(s, t, t.start_election(i));
        }
    }
}

pub proof fn lemma_heartbeat_rounds(s: SimulationView, k: nat, b: int)
    requires
        s.wf(),
        k <= s.nodes.len(),
    ensures
        s.heartbeat_rounds_below(k).wf(),
        s.evolves_to(s.heartbeat_rounds_below(k)),
        s.heartbeat_rounds_below(k).tick == s.tick,
        s.heartbeat_rounds_below(k).nodes.len() == s.nodes.len(),
        s.terms_at_most(b) ==> s.heartbeat_rounds_below(k).terms_at_most(b),
    decreases k,
{
    if k == 0 {
        lemma_evolves_refl(s);
    } else {
        reveal(SimulationView::wf);
        lemma_heartbeat_rounds(s, (k - 1) as nat, b);
        let t = s.heartbeat_rounds_below((k - 1) as nat);
        let i = (k - 1) as usize;
        if t.heartbeat_due(i as int) {
            let u = t.send_heartbeats(i);
            lemma_send_heartbeats(t, i, b);
            let last = NodeView { heartbeat_deadline: (u.tick + u.heartbeat_interval) as u64, ..u.nodes[i as int] };
            lemma_wf_nodes(u, i as int);
            assert(u.with_node(i, last).node_ok(i as int));
            lemma_with_node(u, i, last, b);
            lemma_evolves_trans(s, t, u);
            lemma_evolves_trans(s, u, u.with_node(i, last));
        }
    }
}

pub proof fn lemma_step(s: SimulationView, b: int)
    requires
        s.wf(),
        b < u64::MAX,
        s.terms_at_most(b),
    ensures
        s.step().wf(),
        s.evolves_to(s.step()),
        s.step().tick == (s.tick + 1) as u64,
        s.step().terms_at_most(b + 1),
{
    let tick = (s.tick + 1) as u64;
    let pending = SimulationView::pending_at(s.inbox, tick);
    let due = SimulationView::due_at(s.inbox, tick);
    let s1 = SimulationView { tick, inbox: pending, ..s };
    lemma_filtered_inbox(s, |e: EnvelopeView| e.deliver_at > tick, b);
    lemma_filtered_inbox(s, |e: EnvelopeView| e.deliver_at <= tick, b);
    reveal(SimulationView::wf);
    assert forall|i: int| 0 <= i < s1.nodes.len() implies #[trigger] s1.node_ok(i) by {
        assert(s.node_ok(i));
    }
    assert(s1.wf());
    lemma_evolves_refl(s);
    assert(s.evolves_to(s1));
    assert forall|k: int| 0 <= k < due.len() implies s1.envelope_ok(#[trigger] due[k]) by {
        assert(s.envelope_ok(due[k]));
    }
    lemma_deliver_all(s1, due, b);
    let s2 = s1.deliver_all(due);
    lemma_evolves_trans(s, s1, s2);
    lemma_elections(s2, s2.nodes.len(), b);
    let s3 = s2.elections_below(s2.nodes.len());
    lemma_evolves_trans(s, s2, s3);
    lemma_heartbeat_rounds(s3, s3.nodes.len(), b + 1);
    lemma_evolves_trans(s, s3, s3.heartbeat_rounds_below(s3.nodes.len()));
}

pub proof fn lemma_deadlines(s: SimulationView, k: nat)
    requires
        k <= s.nodes.len(),
    ensures
        s.deadlines_below(k) == (SimulationView {
            nodes: s.deadlines_below(k).nodes,
            rng: s.deadlines_below(k).rng,
            ..s
        }),
        s.deadlines_below(k).nodes.len() == s.nodes.len(),
        forall|j: int|
            0 <= j < s.nodes.len() ==> #[trigger] s.deadlines_below(k).nodes[j] == (NodeView {
                election_deadline: s.deadlines_below(k).nodes[j].election_deadline,
                ..s.nodes[j]
            }),
    decreases k,
{
    if k > 0 {
        lemma_deadlines(s, (k - 1) as nat);
    }
}

/// A freshly built simulation is well formed, at tick 0, with every term 0.
pub proof fn lemma_initial(node_count: usize, seed: u64)
    ensures
        SimulationView::initial(node_count, seed).wf(),
        SimulationView::initial(node_count, seed).tick == 0,
        SimulationView::initial(node_count, seed).terms_at_most(0),
{
    let n = node_count as nat;
    let s0 = SimulationView {
        nodes: Seq::new(n, |i: int| fresh_node(i as usize, n)),
        tick: 0,
        events: Seq::empty(),
        inbox: Seq::empty(),
        rng: crate::rng::seed_state(seed),
        election_timeout_min: 150,
        election_timeout_max: 300,
        heartbeat_interval: 50,
        network_delay: 10,
    };
    lemma_deadlines(s0, n);
    let s = s0.deadlines_below(n);
    reveal(SimulationView::wf);
    assert forall|i: int| 0 <= i < s.nodes.len() implies #[trigger] s.node_ok(i) by {
        assert(s.nodes[i] == NodeView { election_deadline: s.nodes[i].election_deadline, ..s0.nodes[i] });
    }
    assert forall|i: int| 0 <= i < s.nodes.len() implies #[trigger] s.nodes[i].current_term <= 0 by {
        assert(s.nodes[i] == NodeView { election_deadline: s.nodes[i].election_deadline, ..s0.nodes[i] });
    }
}

pub proof fn lemma_kill(s: SimulationView, id: usize, b: int)
    requires
        s.wf(),
        id < s.nodes.len(),
    ensures
        s.kill(id).wf(),
        s.evolves_to(s.kill(id)),
        s.kill(id).tick == s.tick,
        s.terms_at_most(b) ==> s.kill(id).terms_at_most(b),
{
    let node = NodeView { alive: false, ..s.nodes[id as int] };
    lemma_wf_nodes(s, id as int);
    assert(s.with_node(id, node).node_ok(id as int));
    lemma_with_node(s, id, node, b);
    lemma_log_event(s.with_node(id, node), killed_text(id), b);
    lemma_evolves_trans(s, s.with_node(id, node), s.kill(id));
}

pub proof fn lemma_revive(s: SimulationView, id: usize, b: int)
    requires
        s.wf(),
        id < s.nodes.len(),
    ensures
        s.revive(id).wf(),
        s.evolves_to(s.revive(id)),
        s.revive(id).tick == s.tick,
        s.terms_at_most(b) ==> s.revive(id).terms_at_most(b),
{
    let node = NodeView { alive: true, role: Role::Follower, ..s.nodes[id as int] };
    lemma_wf_nodes(s, id as int);
    let s1 = s.with_node(id, node);
    assert(s1.node_ok(id as int));
    lemma_with_node(s, id, node, b);
    let s2 = s1.reset_election_timer(id);
    lemma_reset_election_timer(s1, id, b);
    lemma_log_event(s2, revived_text(id), b);
    lemma_evolves_trans(s, s1, s2);
    lemma_evolves_trans(s, s2, s.revive(id));
}

pub proof fn lemma_submit(s: SimulationView, command: Seq<char>, b: int)
    requires
        s.wf(),
        s.leader_index() matches Some(i) ==> s.nodes[i].log.len() < log_limit(),
    ensures
        s.submit(command).wf(),
        s.evolves_to(s.submit(command)),
        s.submit(command).tick == s.tick,
        s.terms_at_most(b) ==> s.submit(command).terms_at_most(b),
{
    s.lemma_leader_index();
    match s.leader_index() {
        None => {
            lemma_evolves_refl(s);
        },
        Some(pos) => {
            lemma_wf_nodes(s, pos);
            let id = s.nodes[pos].id;
            let node = s.nodes[id as int];
            let log = node.log.push(LogEntryView { term: node.current_term, command });
            let updated = NodeView {
                log,
                match_index: node.match_index.update(id as int, log.len() as usize),
                ..node
            };
            assert(s.with_node(id, updated).node_ok(id as int));
            lemma_with_node(s, id, updated, b);
            lemma_log_event(s.with_node(id, updated), request_text(command, id, log.len() as usize), b);
            lemma_evolves_trans(s, s.with_node(id, updated), s.submit(command));
        },
    }
}

} // verus!
